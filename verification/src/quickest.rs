//! The quickest routing: a search over the rooms of all ants at once, turn by turn, that
//! finds the fewest turns in which every ant can reach the end room.
use vstd::prelude::*;
use crate::map::Farm;
use crate::schedule::{
    arrives, connected, edge, graph_bounded, lemma_first_ant_quickest, lemma_routed_ants_stay,
    lemma_routing_is_valid, reach, reservations, routed, stays_arrived,
    step_ok, valid_routing,
};
use crate::solver::{paths_view, repeated_bfs, Path};

verus! {

/// An ant in room `x` may be in room `y` one turn later: it waits, or it moves through a
/// tube.
pub open spec fn valid_move(g: Seq<Seq<usize>>, x: usize, y: usize) -> bool {
    x == y || edge(g, x, y)
}

/// No room other than `start` and `end` holds two ants.
pub open spec fn spread(start: usize, end: usize, c: Seq<usize>) -> bool {
    forall|a: int, b: int|
        0 <= a < c.len() && 0 <= b < c.len() && a != b && #[trigger] c[a] == #[trigger] c[b] ==> c[a]
            == start || c[a] == end
}

/// Every ant of the rooms `c` waits or moves through a tube, giving the rooms `d`.
pub open spec fn moves_to(g: Seq<Seq<usize>>, c: Seq<usize>, d: Seq<usize>) -> bool {
    &&& c.len() == d.len()
    &&& forall|a: int| 0 <= a < c.len() ==> #[trigger] valid_move(g, c[a], d[a])
}

/// One turn of all ants: from the rooms `c` to the rooms `d`, which no two ants share but
/// for `start` and `end`; an ant that has reached `end` stays there.
pub open spec fn joint_step(g: Seq<Seq<usize>>, start: usize, end: usize, c: Seq<usize>, d: Seq<usize>) -> bool {
    moves_to(g, c, d) && spread(start, end, d) && arrived_stay(end, c, d)
}

/// Every ant of `c` that is in the end room is still there in `d`.
pub open spec fn arrived_stay(end: usize, c: Seq<usize>, d: Seq<usize>) -> bool {
    forall|a: int| 0 <= a < c.len() && #[trigger] c[a] == end ==> d[a] == end
}

/// `k` ants, all in room `r`.
pub open spec fn all_at(k: nat, r: usize) -> Seq<usize> {
    Seq::new(k, |i: int| r)
}

/// The rooms that `k` ants, all in `start` at turn 0, can hold at turn `t`.
pub open spec fn joint_reach(g: Seq<Seq<usize>>, start: usize, end: usize, k: nat, t: nat) -> Set<Seq<usize>>
    decreases t,
{
    if t == 0 {
        set![all_at(k, start)]
    } else {
        Set::new(
            |d: Seq<usize>|
                exists|c: Seq<usize>|
                    #[trigger] joint_reach(g, start, end, k, (t - 1) as nat).contains(c) && joint_step(
                        g,
                        start,
                        end,
                        c,
                        d,
                    ),
        )
    }
}

/// `n` to the power `e`.
pub open spec fn power(n: nat, e: nat) -> nat
    decreases e,
{
    if e == 0 {
        1
    } else {
        power(n, (e - 1) as nat) * n
    }
}

/// The rooms `c` written as a number in base `n`, the last ant's room last.
pub open spec fn code(c: Seq<usize>, n: nat) -> nat
    decreases c.len(),
{
    if c.len() == 0 {
        0
    } else {
        code(c.drop_last(), n) * n + c.last() as nat
    }
}

/// Every room of `c` is below `n`.
pub open spec fn rooms_below(c: Seq<usize>, n: nat) -> bool {
    forall|a: int| 0 <= a < c.len() ==> #[trigger] c[a] < n
}

proof fn lemma_digit_split(x: int, a: int, y: int, b: int, n: int)
    by (nonlinear_arith)
    requires
        n > 0,
        0 <= a < n,
        0 <= b < n,
        x * n + a == y * n + b,
    ensures
        a == b,
        x == y,
{
    if x > y {
        assert((x - y) * n >= n);
        assert(x * n - y * n == (x - y) * n);
    } else if x < y {
        assert((y - x) * n >= n);
        assert(y * n - x * n == (y - x) * n);
    }
}

proof fn lemma_code_bound(c: Seq<usize>, n: nat)
    requires
        rooms_below(c, n),
    ensures
        code(c, n) < power(n, c.len()),
    decreases c.len(),
{
    if c.len() > 0 {
        let init = c.drop_last();
        assert(rooms_below(init, n)) by {
            assert forall|a: int| 0 <= a < init.len() implies #[trigger] init[a] < n by {
                assert(init[a] == c[a]);
            }
        }
        lemma_code_bound(init, n);
        let x = code(init, n) as int;
        let p = power(n, init.len()) as int;
        let l = c.last() as int;
        assert(c[c.len() - 1] < n);
        assert(x * n + l < p * n) by (nonlinear_arith)
            requires
                x < p,
                0 <= l < n,
                0 <= x,
        ;
    }
}

/// Two room lists of the same length with the same code are equal.
proof fn lemma_code_injective(c: Seq<usize>, d: Seq<usize>, n: nat)
    requires
        rooms_below(c, n),
        rooms_below(d, n),
        c.len() == d.len(),
        code(c, n) == code(d, n),
    ensures
        c == d,
    decreases c.len(),
{
    if c.len() > 0 {
        let ci = c.drop_last();
        let di = d.drop_last();
        assert(c[c.len() - 1] < n);
        assert(d[d.len() - 1] < n);
        lemma_digit_split(code(ci, n) as int, c.last() as int, code(di, n) as int, d.last() as int, n as int);
        assert(rooms_below(ci, n)) by {
            assert forall|a: int| 0 <= a < ci.len() implies #[trigger] ci[a] < n by {
                assert(ci[a] == c[a]);
            }
        }
        assert(rooms_below(di, n)) by {
            assert forall|a: int| 0 <= a < di.len() implies #[trigger] di[a] < n by {
                assert(di[a] == d[a]);
            }
        }
        lemma_code_injective(ci, di, n);
        assert(c =~= d) by {
            assert forall|a: int| 0 <= a < c.len() implies c[a] == d[a] by {
                if a < c.len() - 1 {
                    assert(c[a] == ci[a] && d[a] == di[a]);
                }
            }
        }
    }
}

proof fn lemma_power_grows(n: nat, a: nat, b: nat)
    requires
        n >= 1,
        a <= b,
    ensures
        power(n, a) <= power(n, b),
    decreases b,
{
    if a < b {
        lemma_power_grows(n, a, (b - 1) as nat);
        let p = power(n, (b - 1) as nat);
        assert(p <= p * n) by (nonlinear_arith)
            requires
                n >= 1,
        ;
    }
}

/// The code of the rooms `c`.
fn config_code(c: &Vec<usize>, n: usize, limit: usize) -> (x: usize)
    requires
        rooms_below(c@, n as nat),
        power(n as nat, c.len() as nat) <= limit,
    ensures
        x == code(c@, n as nat),
        x < power(n as nat, c.len() as nat),
{
    let mut x: usize = 0;
    let mut i: usize = 0;
    proof {
        assert(c@.take(0) =~= Seq::<usize>::empty());
    }
    while i < c.len()
        invariant
            i <= c.len(),
            rooms_below(c@, n as nat),
            power(n as nat, c.len() as nat) <= limit,
            x == code(c@.take(i as int), n as nat),
        decreases c.len() - i,
    {
        proof {
            let pre = c@.take(i as int + 1);
            assert(pre.drop_last() =~= c@.take(i as int));
            assert(pre.last() == c@[i as int]);
            assert(rooms_below(pre, n as nat)) by {
                assert forall|a: int| 0 <= a < pre.len() implies #[trigger] pre[a] < n by {
                    assert(pre[a] == c@[a]);
                }
            }
            lemma_code_bound(pre, n as nat);
            lemma_power_grows(n as nat, (i + 1) as nat, c.len() as nat);
            assert(c@[i as int] < n);
            assert(x * n + c@[i as int] == code(pre, n as nat));
            assert(x * n <= x * n + c@[i as int]) by (nonlinear_arith)
                requires
                    x >= 0,
                    n >= 0,
            ;
        }
        x = x * n + c[i];
        i += 1;
    }
    proof {
        assert(c@.take(c.len() as int) =~= c@);
        lemma_code_bound(c@, n as nat);
    }
    x
}

/// Tells whether no room other than `start` and `end` holds two ants.
fn is_spread(start: usize, end: usize, c: &Vec<usize>) -> (r: bool)
    ensures
        r == spread(start, end, c@),
{
    let mut a: usize = 0;
    while a < c.len()
        invariant
            a <= c.len(),
            forall|x: int, y: int|
                0 <= x < a && 0 <= y < c.len() && x != y && #[trigger] c@[x] == #[trigger] c@[y] ==> c@[x]
                    == start || c@[x] == end,
        decreases c.len() - a,
    {
        if c[a] != start && c[a] != end {
            let mut b: usize = 0;
            while b < c.len()
                invariant
                    a < c.len(),
                    b <= c.len(),
                    c@[a as int] != start && c@[a as int] != end,
                    forall|y: int| 0 <= y < b && y != a ==> c@[y] != c@[a as int],
                decreases c.len() - b,
            {
                if b != a && c[b] == c[a] {
                    proof {
                        assert(c@[a as int] == c@[b as int]);
                    }
                    return false;
                }
                b += 1;
            }
        }
        a += 1;
    }
    true
}

/// Tells whether an ant in room `x` may be in room `y` one turn later.
fn is_move(map: &Farm, x: usize, y: usize) -> (r: bool)
    requires
        map.wf(),
    ensures
        r == valid_move(map.graph(), x, y),
{
    if x == y {
        return true;
    }
    if x >= map.links.len() {
        return false;
    }
    let nb = &map.links[x];
    let mut j: usize = 0;
    while j < nb.len()
        invariant
            map.wf(),
            x < map.links.len(),
            nb@ == map.graph()[x as int],
            j <= nb.len(),
            forall|i: int| 0 <= i < j ==> nb@[i] != y,
        decreases nb.len() - j,
    {
        if nb[j] == y {
            proof {
                assert(map.graph()[x as int][j as int] == y);
            }
            return true;
        }
        j += 1;
    }
    false
}

/// `d` is `c` with its first `a` ants moved (waiting or through a tube) and the others in
/// place.
pub open spec fn moved_prefix(g: Seq<Seq<usize>>, c: Seq<usize>, d: Seq<usize>, a: int) -> bool {
    &&& d.len() == c.len()
    &&& forall|i: int| 0 <= i < a && i < c.len() ==> #[trigger] valid_move(g, c[i], d[i])
    &&& forall|i: int| a <= i < c.len() ==> #[trigger] d[i] == c[i]
}

/// The rooms `p` with ant `a` in room `o`.
fn with_room(p: &Vec<usize>, a: usize, o: usize) -> (q: Vec<usize>)
    requires
        a < p.len(),
    ensures
        q@ == p@.update(a as int, o),
{
    let mut q: Vec<usize> = Vec::new();
    let mut i: usize = 0;
    while i < p.len()
        invariant
            a < p.len(),
            i <= p.len(),
            q@ == p@.update(a as int, o).take(i as int),
        decreases p.len() - i,
    {
        if i == a {
            q.push(o);
        } else {
            q.push(p[i]);
        }
        proof {
            assert(q@ =~= p@.update(a as int, o).take(i as int + 1));
        }
        i += 1;
    }
    proof {
        assert(q@ =~= p@.update(a as int, o));
    }
    q
}

/// A copy of the rooms `p`.
fn copy_rooms(p: &Vec<usize>) -> (q: Vec<usize>)
    ensures
        q@ == p@,
{
    let mut q: Vec<usize> = Vec::new();
    let mut i: usize = 0;
    while i < p.len()
        invariant
            i <= p.len(),
            q@ == p@.take(i as int),
        decreases p.len() - i,
    {
        q.push(p[i]);
        proof {
            assert(q@ =~= p@.take(i as int + 1));
        }
        i += 1;
    }
    proof {
        assert(q@ =~= p@);
    }
    q
}

/// Every way in which the ants in the rooms `c` can move in one turn, each waiting or
/// moving through a tube (rooms may be shared; that is checked afterwards).
fn moves_of(map: &Farm, c: &Vec<usize>) -> (r: Vec<Vec<usize>>)
    requires
        map.wf(),
        rooms_below(c@, map.rooms.len() as nat),
    ensures
        forall|j: int|
            0 <= j < r.len() ==> moves_to(map.graph(), c@, #[trigger] r@[j]@) && rooms_below(
                r@[j]@,
                map.rooms.len() as nat,
            ),
        forall|d: Seq<usize>| #[trigger]
            moves_to(map.graph(), c@, d) ==> exists|j: int| 0 <= j < r.len() && #[trigger] r@[j]@ == d,
{
    let ghost g = map.graph();
    let ghost n = map.rooms.len() as nat;
    let mut parts: Vec<Vec<usize>> = Vec::new();
    parts.push(copy_rooms(c));
    let mut a: usize = 0;
    proof {
        assert forall|d: Seq<usize>| #[trigger] moved_prefix(g, c@, d, 0) implies exists|j: int|
            0 <= j < parts.len() && #[trigger] parts@[j]@ == d by {
            assert(d =~= c@);
            assert(parts@[0]@ == d);
        }
    }
    while a < c.len()
        invariant
            map.wf(),
            g == map.graph(),
            n == map.rooms.len(),
            rooms_below(c@, n),
            a <= c.len(),
            forall|j: int|
                0 <= j < parts.len() ==> moved_prefix(g, c@, #[trigger] parts@[j]@, a as int)
                    && rooms_below(parts@[j]@, n),
            forall|d: Seq<usize>| #[trigger]
                moved_prefix(g, c@, d, a as int) ==> exists|j: int|
                    0 <= j < parts.len() && #[trigger] parts@[j]@ == d,
        decreases c.len() - a,
    {
        let x = c[a];
        proof {
            assert(c@[a as int] < n);
        }
        let nb = &map.links[x];
        let mut next: Vec<Vec<usize>> = Vec::new();
        let mut i: usize = 0;
        while i < parts.len()
            invariant
                map.wf(),
                g == map.graph(),
                n == map.rooms.len(),
                rooms_below(c@, n),
                a < c.len(),
                x == c@[a as int],
                x < n,
                nb@ == g[x as int],
                i <= parts.len(),
                forall|j: int|
                    0 <= j < parts.len() ==> moved_prefix(g, c@, #[trigger] parts@[j]@, a as int)
                        && rooms_below(parts@[j]@, n),
                forall|j: int|
                    0 <= j < next.len() ==> moved_prefix(g, c@, #[trigger] next@[j]@, a + 1)
                        && rooms_below(next@[j]@, n),
                forall|k: int, o: usize|
                    #![trigger parts@[k], valid_move(g, x, o)]
                    0 <= k < i && valid_move(g, x, o) ==> exists|l: int|
                        0 <= l < next.len() && #[trigger] next@[l]@ == parts@[k]@.update(a as int, o),
            decreases parts.len() - i,
        {
            let p = &parts[i];
            let ghost next0 = next@;
            let stay = with_room(p, a, x);
            proof {
                assert(moved_prefix(g, c@, p@, a as int));
                assert(stay@ =~= p@);
                assert(moved_prefix(g, c@, stay@, a + 1)) by {
                    assert(valid_move(g, c@[a as int], stay@[a as int]));
                }
            }
            next.push(stay);
            proof {
                assert forall|k: int, o: usize|
                    #![trigger parts@[k], valid_move(g, x, o)]
                    0 <= k < i && valid_move(g, x, o) implies exists|l: int|
                        0 <= l < next.len() && #[trigger] next@[l]@ == parts@[k]@.update(a as int, o) by {
                    let l = choose|l: int|
                        0 <= l < next0.len() && #[trigger] next0[l]@ == parts@[k]@.update(a as int, o);
                    assert(next@[l] == next0[l]);
                }
                assert(next@[next.len() - 1]@ == p@.update(a as int, x));
            }
            let mut j: usize = 0;
            while j < nb.len()
                invariant
                    map.wf(),
                    g == map.graph(),
                    n == map.rooms.len(),
                    rooms_below(c@, n),
                    a < c.len(),
                    x == c@[a as int],
                    x < n,
                    nb@ == g[x as int],
                    i < parts.len(),
                    p == parts@[i as int],
                    j <= nb.len(),
                    forall|jj: int|
                        0 <= jj < parts.len() ==> moved_prefix(g, c@, #[trigger] parts@[jj]@, a as int)
                            && rooms_below(parts@[jj]@, n),
                    forall|jj: int|
                        0 <= jj < next.len() ==> moved_prefix(g, c@, #[trigger] next@[jj]@, a + 1)
                            && rooms_below(next@[jj]@, n),
                    forall|k: int, o: usize|
                        #![trigger parts@[k], valid_move(g, x, o)]
                        0 <= k < i && valid_move(g, x, o) ==> exists|l: int|
                            0 <= l < next.len() && #[trigger] next@[l]@ == parts@[k]@.update(a as int, o),
                    exists|l: int| 0 <= l < next.len() && #[trigger] next@[l]@ == p@.update(a as int, x),
                    forall|jj: int|
                        #![trigger nb@[jj]]
                        0 <= jj < j ==> exists|l: int|
                            0 <= l < next.len() && #[trigger] next@[l]@ == p@.update(a as int, nb@[jj]),
                decreases nb.len() - j,
            {
                let o = nb[j];
                let ghost next1 = next@;
                let q = with_room(p, a, o);
                proof {
                    assert(g[x as int][j as int] == o);
                    assert(o < n);
                    assert(edge(g, x, o));
                    assert(moved_prefix(g, c@, p@, a as int));
                    assert(moved_prefix(g, c@, q@, a + 1)) by {
                        assert(valid_move(g, c@[a as int], q@[a as int]));
                        assert forall|ii: int| 0 <= ii < a + 1 && ii < c@.len() implies #[trigger] valid_move(
                            g,
                            c@[ii],
                            q@[ii],
                        ) by {
                            if ii < a {
                                assert(q@[ii] == p@[ii]);
                            }
                        }
                    }
                    assert(rooms_below(q@, n)) by {
                        assert forall|ii: int| 0 <= ii < q@.len() implies #[trigger] q@[ii] < n by {
                            if ii != a {
                                assert(q@[ii] == p@[ii]);
                            }
                        }
                    }
                }
                next.push(q);
                proof {
                    assert forall|k: int, o2: usize|
                        #![trigger parts@[k], valid_move(g, x, o2)]
                        0 <= k < i && valid_move(g, x, o2) implies exists|l: int|
                            0 <= l < next.len() && #[trigger] next@[l]@ == parts@[k]@.update(a as int, o2) by {
                        let l = choose|l: int|
                            0 <= l < next1.len() && #[trigger] next1[l]@ == parts@[k]@.update(a as int, o2);
                        assert(next@[l] == next1[l]);
                    }
                    let l0 = choose|l: int| 0 <= l < next1.len() && #[trigger] next1[l]@ == p@.update(a as int, x);
                    assert(next@[l0] == next1[l0]);
                    assert forall|jj: int| #![trigger nb@[jj]] 0 <= jj < j + 1 implies exists|l: int|
                        0 <= l < next.len() && #[trigger] next@[l]@ == p@.update(a as int, nb@[jj]) by {
                        if jj < j {
                            let l = choose|l: int|
                                0 <= l < next1.len() && #[trigger] next1[l]@ == p@.update(a as int, nb@[jj]);
                            assert(next@[l] == next1[l]);
                        } else {
                            assert(next@[next.len() - 1]@ == p@.update(a as int, nb@[jj]));
                        }
                    }
                }
                j += 1;
            }
            proof {
                assert forall|k: int, o: usize|
                    #![trigger parts@[k], valid_move(g, x, o)]
                    0 <= k < i + 1 && valid_move(g, x, o) implies exists|l: int|
                        0 <= l < next.len() && #[trigger] next@[l]@ == parts@[k]@.update(a as int, o) by {
                    if k == i && o != x {
                        assert(edge(g, x, o));
                        let jj = choose|jj: int| 0 <= jj < g[x as int].len() && g[x as int][jj] == o;
                        assert(nb@[jj] == o);
                    }
                }
            }
            i += 1;
        }
        proof {
            assert forall|d: Seq<usize>| #[trigger] moved_prefix(g, c@, d, a + 1) implies exists|l: int|
                0 <= l < next.len() && #[trigger] next@[l]@ == d by {
                let d0 = d.update(a as int, x);
                assert(moved_prefix(g, c@, d0, a as int)) by {
                    assert forall|ii: int| 0 <= ii < a && ii < c@.len() implies #[trigger] valid_move(
                        g,
                        c@[ii],
                        d0[ii],
                    ) by {
                        assert(d0[ii] == d[ii]);
                        assert(valid_move(g, c@[ii], d[ii]));
                    }
                }
                let k = choose|k: int| 0 <= k < parts.len() && #[trigger] parts@[k]@ == d0;
                assert(valid_move(g, c@[a as int], d[a as int]));
                assert(valid_move(g, x, d[a as int]));
                assert(parts@[k]@.update(a as int, d[a as int]) =~= d);
            }
        }
        parts = next;
        a += 1;
    }
    proof {
        assert forall|j: int| 0 <= j < parts.len() implies moves_to(g, c@, #[trigger] parts@[j]@) by {
            assert(moved_prefix(g, c@, parts@[j]@, c.len() as int));
        }
        assert forall|d: Seq<usize>| #[trigger] moves_to(g, c@, d) implies exists|j: int|
            0 <= j < parts.len() && #[trigger] parts@[j]@ == d by {
            assert(moved_prefix(g, c@, d, c.len() as int));
        }
    }
    parts
}

/// `layer` lists exactly the rooms that `k` ants can hold at turn `t`, each list of rooms
/// at least once.
pub open spec fn layer_is(
    g: Seq<Seq<usize>>,
    start: usize,
    end: usize,
    k: nat,
    n: nat,
    layer: Seq<Vec<usize>>,
    t: nat,
) -> bool {
    &&& forall|j: int|
        0 <= j < layer.len() ==> joint_reach(g, start, end, k, t).contains(#[trigger] layer[j]@)
            && layer[j]@.len() == k && rooms_below(layer[j]@, n)
    &&& forall|c: Seq<usize>|
        #[trigger] joint_reach(g, start, end, k, t).contains(c) ==> exists|j: int|
            0 <= j < layer.len() && #[trigger] layer[j]@ == c
}

/// The rooms that the ants can hold at turn `t + 1`, from those they can hold at turn `t`.
fn next_layer(
    map: &Farm,
    k: usize,
    size: usize,
    cur: &Vec<Vec<usize>>,
    Ghost(t): Ghost<nat>,
) -> (next: Vec<Vec<usize>>)
    requires
        map.wf(),
        size == power(map.rooms.len() as nat, k as nat),
        layer_is(map.graph(), map.start, map.end, k as nat, map.rooms.len() as nat, cur@, t),
    ensures
        layer_is(
            map.graph(),
            map.start,
            map.end,
            k as nat,
            map.rooms.len() as nat,
            next@,
            t + 1,
        ),
{
    let ghost g = map.graph();
    let ghost nn = map.rooms.len() as nat;
    let ghost prev = joint_reach(g, map.start, map.end, k as nat, t);
    let ghost reach = joint_reach(g, map.start, map.end, k as nat, t + 1);
    let n = map.rooms.len();
    let mut seen: Vec<bool> = Vec::new();
    while seen.len() < size
        invariant
            seen.len() <= size,
            forall|x: int| 0 <= x < seen.len() ==> !seen@[x],
        decreases size - seen.len(),
    {
        seen.push(false);
    }
    let mut next: Vec<Vec<usize>> = Vec::new();
    let mut i: usize = 0;
    while i < cur.len()
        invariant
            map.wf(),
            g == map.graph(),
            nn == n,
            n == map.rooms.len(),
            size == power(nn, k as nat),
            prev == joint_reach(g, map.start, map.end, k as nat, t),
            reach == joint_reach(g, map.start, map.end, k as nat, t + 1),
            layer_is(g, map.start, map.end, k as nat, nn, cur@, t),
            i <= cur.len(),
            seen.len() == size,
            forall|l: int|
                0 <= l < next.len() ==> reach.contains(#[trigger] next@[l]@) && next@[l]@.len() == k
                    && rooms_below(next@[l]@, nn),
            forall|x: int|
                0 <= x < size ==> (seen@[x] <==> exists|l: int|
                    0 <= l < next.len() && code(#[trigger] next@[l]@, nn) == x),
            forall|ii: int, d: Seq<usize>|
                #![trigger cur@[ii], joint_step(g, map.start, map.end, cur@[ii]@, d)]
                0 <= ii < i && joint_step(g, map.start, map.end, cur@[ii]@, d) ==> exists|l: int|
                    0 <= l < next.len() && #[trigger] next@[l]@ == d,
        decreases cur.len() - i,
    {
        let c = &cur[i];
        proof {
            assert(prev.contains(cur@[i as int]@));
        }
        let cands = moves_of(map, c);
        let mut j: usize = 0;
        while j < cands.len()
            invariant
                map.wf(),
                g == map.graph(),
                nn == n,
                n == map.rooms.len(),
                size == power(nn, k as nat),
                prev == joint_reach(g, map.start, map.end, k as nat, t),
                reach == joint_reach(g, map.start, map.end, k as nat, t + 1),
                layer_is(g, map.start, map.end, k as nat, nn, cur@, t),
                i < cur.len(),
                c == cur@[i as int],
                prev.contains(c@),
                c@.len() == k,
                forall|jj: int|
                    0 <= jj < cands.len() ==> moves_to(g, c@, #[trigger] cands@[jj]@) && rooms_below(
                        cands@[jj]@,
                        nn,
                    ),
                j <= cands.len(),
                seen.len() == size,
                forall|l: int|
                    0 <= l < next.len() ==> reach.contains(#[trigger] next@[l]@) && next@[l]@.len() == k
                        && rooms_below(next@[l]@, nn),
                forall|x: int|
                    0 <= x < size ==> (seen@[x] <==> exists|l: int|
                        0 <= l < next.len() && code(#[trigger] next@[l]@, nn) == x),
                forall|ii: int, d: Seq<usize>|
                    #![trigger cur@[ii], joint_step(g, map.start, map.end, cur@[ii]@, d)]
                    0 <= ii < i && joint_step(g, map.start, map.end, cur@[ii]@, d) ==> exists|l: int|
                        0 <= l < next.len() && #[trigger] next@[l]@ == d,
                forall|jj: int|
                    0 <= jj < j && spread(map.start, map.end, #[trigger] cands@[jj]@) && arrived_stay(
                        map.end,
                        c@,
                        cands@[jj]@,
                    ) ==> exists|l: int|
                        0 <= l < next.len() && #[trigger] next@[l]@ == cands@[jj]@,
            decreases cands.len() - j,
        {
            let d = &cands[j];
            proof {
                assert(moves_to(g, c@, d@));
                assert(rooms_below(d@, nn));
            }
            if is_spread(map.start, map.end, d) && keeps_arrived(map.end, c, d) {
                let x = config_code(d, n, size);
                if !seen[x] {
                    let ghost next0 = next@;
                    let dc = copy_rooms(d);
                    proof {
                        assert(joint_step(g, map.start, map.end, c@, d@));
                        assert(reach.contains(d@));
                    }
                    next.push(dc);
                    seen.set(x, true);
                    proof {
                        assert forall|y: int| 0 <= y < size implies (seen@[y] <==> exists|l: int|
                            0 <= l < next.len() && code(#[trigger] next@[l]@, nn) == y) by {
                            if y != x {
                                if exists|l: int| 0 <= l < next.len() && code(#[trigger] next@[l]@, nn) == y {
                                    let l = choose|l: int| 0 <= l < next.len() && code(#[trigger] next@[l]@, nn) == y;
                                    assert(l < next0.len());
                                    assert(next0[l] == next@[l]);
                                }
                                if seen@[y] {
                                    let l = choose|l: int| 0 <= l < next0.len() && code(#[trigger] next0[l]@, nn) == y;
                                    assert(next0[l] == next@[l]);
                                }
                            } else {
                                assert(code(next@[next.len() - 1]@, nn) == y);
                            }
                        }
                        assert forall|ii: int, e: Seq<usize>|
                            #![trigger cur@[ii], joint_step(g, map.start, map.end, cur@[ii]@, e)]
                            0 <= ii < i && joint_step(g, map.start, map.end, cur@[ii]@, e) implies exists|l: int|
                                0 <= l < next.len() && #[trigger] next@[l]@ == e by {
                            let l = choose|l: int| 0 <= l < next0.len() && #[trigger] next0[l]@ == e;
                            assert(next0[l] == next@[l]);
                        }
                        assert forall|jj: int|
                            0 <= jj < j + 1 && spread(map.start, map.end, #[trigger] cands@[jj]@)
                                && arrived_stay(map.end, c@, cands@[jj]@) implies exists|l: int|
                                0 <= l < next.len() && #[trigger] next@[l]@ == cands@[jj]@ by {
                            if jj < j {
                                let l = choose|l: int| 0 <= l < next0.len() && #[trigger] next0[l]@ == cands@[jj]@;
                                assert(next0[l] == next@[l]);
                            } else {
                                assert(next@[next.len() - 1]@ == cands@[jj]@);
                            }
                        }
                    }
                } else {
                    proof {
                        let l = choose|l: int| 0 <= l < next.len() && code(#[trigger] next@[l]@, nn) == x;
                        lemma_code_injective(next@[l]@, d@, nn);
                    }
                }
            }
            j += 1;
        }
        proof {
            assert forall|ii: int, e: Seq<usize>|
                #![trigger cur@[ii], joint_step(g, map.start, map.end, cur@[ii]@, e)]
                0 <= ii < i + 1 && joint_step(g, map.start, map.end, cur@[ii]@, e) implies exists|l: int|
                    0 <= l < next.len() && #[trigger] next@[l]@ == e by {
                if ii == i {
                    assert(moves_to(g, c@, e));
                    let jj = choose|jj: int| 0 <= jj < cands.len() && #[trigger] cands@[jj]@ == e;
                    assert(spread(map.start, map.end, cands@[jj]@));
                    assert(arrived_stay(map.end, c@, cands@[jj]@));
                }
            }
        }
        i += 1;
    }
    proof {
        assert forall|e: Seq<usize>| #[trigger] reach.contains(e) implies exists|l: int|
            0 <= l < next.len() && #[trigger] next@[l]@ == e by {
            let c = choose|c: Seq<usize>| #[trigger] prev.contains(c) && joint_step(g, map.start, map.end, c, e);
            let ii = choose|ii: int| 0 <= ii < cur.len() && #[trigger] cur@[ii]@ == c;
            assert(joint_step(g, map.start, map.end, cur@[ii]@, e));
        }
    }
    next
}

/// The ant following `p` has been in room `end` at some turn up to `t`.
pub open spec fn arrived_by(p: Seq<usize>, end: usize, t: int) -> bool {
    exists|u: int| 0 <= u <= t && u < p.len() && #[trigger] p[u] == end
}

/// The rooms of the ants of `paths` at turn `t`, where an ant that has reached `end` is
/// kept there.
pub open spec fn rooms_at(paths: Seq<Seq<usize>>, end: usize, t: int) -> Seq<usize> {
    Seq::new(
        paths.len(),
        |a: int|
            if arrived_by(paths[a], end, t) {
                end
            } else if t < paths[a].len() {
                paths[a][t]
            } else {
                paths[a].last()
            },
    )
}

/// The rooms held at every turn by the ants of a valid routing, each kept in the end room
/// once it has reached it, can be held then.
proof fn lemma_routing_in_reach(
    g: Seq<Seq<usize>>,
    start: usize,
    end: usize,
    paths: Seq<Seq<usize>>,
    t: nat,
)
    requires
        valid_routing(g, start, end, paths),
        start != end,
    ensures
        joint_reach(g, start, end, paths.len(), t).contains(rooms_at(paths, end, t as int)),
    decreases t,
{
    let none = Seq::<Set<usize>>::empty();
    let k = paths.len();
    let d = rooms_at(paths, end, t as int);
    assert forall|a: int| 0 <= a < k implies #[trigger] arrives(g, start, none, end, paths[a]) by {}
    assert forall|a: int| 0 <= a < k && !arrived_by(paths[a], end, t as int) implies t < #[trigger] paths[a].len()
        && paths[a][t as int] != end by {
        assert(arrives(g, start, none, end, paths[a]));
        if t >= paths[a].len() {
            assert(paths[a][paths[a].len() - 1] == end);
        }
    }
    if t == 0 {
        assert(d =~= all_at(k, start)) by {
            assert forall|a: int| 0 <= a < k implies d[a] == start by {
                assert(arrives(g, start, none, end, paths[a]));
                if arrived_by(paths[a], end, 0) {
                    let u = choose|u: int| 0 <= u <= 0 && u < paths[a].len() && #[trigger] paths[a][u] == end;
                    assert(u == 0);
                }
            }
        }
    } else {
        lemma_routing_in_reach(g, start, end, paths, (t - 1) as nat);
        let c = rooms_at(paths, end, t - 1);
        assert forall|a: int| 0 <= a < k implies #[trigger] valid_move(g, c[a], d[a]) && (c[a] == end ==> d[a]
            == end) by {
            assert(arrives(g, start, none, end, paths[a]));
            if arrived_by(paths[a], end, t - 1) {
                let u = choose|u: int| 0 <= u <= t - 1 && u < paths[a].len() && #[trigger] paths[a][u] == end;
                assert(arrived_by(paths[a], end, t as int));
            } else {
                if t - 1 >= paths[a].len() {
                    assert(paths[a][paths[a].len() - 1] == end);
                }
                assert(c[a] == paths[a][t - 1]);
                if t >= paths[a].len() {
                    assert(paths[a][paths[a].len() - 1] == end);
                    assert(arrived_by(paths[a], end, t as int));
                }
                assert(t < paths[a].len());
                assert(step_ok(g, none, paths[a], t as int));
                if arrived_by(paths[a], end, t as int) {
                    let u = choose|u: int| 0 <= u <= t && u < paths[a].len() && #[trigger] paths[a][u] == end;
                    assert(u == t);
                }
            }
        }
        assert forall|a: int, b: int|
            0 <= a < d.len() && 0 <= b < d.len() && a != b && #[trigger] d[a] == #[trigger] d[b] implies d[a]
            == start || d[a] == end by {
            if !arrived_by(paths[a], end, t as int) && !arrived_by(paths[b], end, t as int) {
                assert(t < paths[a].len() && t < paths[b].len());
                assert(paths[a][t as int] == paths[b][t as int]);
            }
        }
        assert(arrived_stay(end, c, d));
        assert(joint_step(g, start, end, c, d));
        assert(joint_reach(g, start, end, k, (t - 1) as nat).contains(c));
    }
}

/// When every ant of a valid routing has arrived by turn `turns`, all ants can be in the end
/// room at turn `turns`.
proof fn lemma_routing_done(
    g: Seq<Seq<usize>>,
    start: usize,
    end: usize,
    paths: Seq<Seq<usize>>,
    turns: nat,
)
    requires
        valid_routing(g, start, end, paths),
        start != end,
        forall|a: int| 0 <= a < paths.len() ==> #[trigger] paths[a].len() <= turns + 1,
    ensures
        joint_reach(g, start, end, paths.len(), turns).contains(all_at(paths.len(), end)),
{
    lemma_routing_in_reach(g, start, end, paths, turns);
    let none = Seq::<Set<usize>>::empty();
    assert(rooms_at(paths, end, turns as int) =~= all_at(paths.len(), end)) by {
        assert forall|a: int| 0 <= a < paths.len() implies rooms_at(paths, end, turns as int)[a] == end by {
            assert(arrives(g, start, none, end, paths[a]));
            assert(paths[a].len() <= turns + 1);
            assert(paths[a][paths[a].len() - 1] == end);
            assert(arrived_by(paths[a], end, turns as int));
        }
    }
}

/// Along rows of rooms where arrived ants stay, an ant in `end` at turn `t1` is there at
/// turn `t2`.
proof fn lemma_rows_stay(rows: Seq<Seq<usize>>, end: usize, k: nat, a: int, t1: int, t2: int)
    requires
        forall|u: int| 0 <= u < rows.len() ==> (#[trigger] rows[u]).len() == k,
        forall|u: int| 1 <= u < rows.len() ==> #[trigger] arrived_stay(end, rows[u - 1], rows[u]),
        0 <= a < k,
        0 <= t1 <= t2 < rows.len(),
        rows[t1][a] == end,
    ensures
        rows[t2][a] == end,
    decreases t2 - t1,
{
    if t1 < t2 {
        lemma_rows_stay(rows, end, k, a, t1, t2 - 1);
        assert(arrived_stay(end, rows[t2 - 1], rows[t2]));
        assert(rows[t2 - 1][a] == end);
    }
}

/// Every ant of `paths` has arrived by turn `turns`.
pub open spec fn finishes_within(paths: Seq<Seq<usize>>, turns: nat) -> bool {
    forall|a: int| 0 <= a < paths.len() ==> #[trigger] paths[a].len() <= turns + 1
}

/// No valid routing of as many ants finishes in fewer turns than `paths`.
pub open spec fn quickest(g: Seq<Seq<usize>>, start: usize, end: usize, paths: Seq<Seq<usize>>) -> bool {
    forall|other: Seq<Seq<usize>>, turns: nat|
        valid_routing(g, start, end, other) && other.len() == paths.len() && #[trigger] finishes_within(
            other,
            turns,
        ) ==> finishes_within(paths, turns)
}

/// Up to how many lists of rooms the search may tabulate: it runs only when the number of
/// rooms to the power of the number of ants is at most this.
pub const SEARCH_LIMIT: usize = 1048576;

/// `k` ants in room `r`.
fn make_all(k: usize, r: usize) -> (v: Vec<usize>)
    ensures
        v@ == all_at(k as nat, r),
{
    let mut v: Vec<usize> = Vec::new();
    while v.len() < k
        invariant
            v.len() <= k,
            forall|i: int| 0 <= i < v.len() ==> v@[i] == r,
        decreases k - v.len(),
    {
        v.push(r);
    }
    proof {
        assert(v@ =~= all_at(k as nat, r));
    }
    v
}

/// Tells whether every ant of `c` is in room `r`.
fn is_all(c: &Vec<usize>, r: usize) -> (b: bool)
    ensures
        b == (c@ == all_at(c.len() as nat, r)),
{
    let mut i: usize = 0;
    while i < c.len()
        invariant
            i <= c.len(),
            forall|j: int| 0 <= j < i ==> c@[j] == r,
        decreases c.len() - i,
    {
        if c[i] != r {
            proof {
                assert(all_at(c.len() as nat, r)[i as int] == r);
            }
            return false;
        }
        i += 1;
    }
    proof {
        assert(c@ =~= all_at(c.len() as nat, r));
    }
    true
}

/// Tells whether every ant of `c` in room `end` is still there in `d`.
fn keeps_arrived(end: usize, c: &Vec<usize>, d: &Vec<usize>) -> (b: bool)
    requires
        c.len() == d.len(),
    ensures
        b == arrived_stay(end, c@, d@),
{
    let mut i: usize = 0;
    while i < c.len()
        invariant
            c.len() == d.len(),
            i <= c.len(),
            forall|a: int| 0 <= a < i && #[trigger] c@[a] == end ==> d@[a] == end,
        decreases c.len() - i,
    {
        if c[i] == end && d[i] != end {
            return false;
        }
        i += 1;
    }
    true
}

/// Tells whether every ant of `c` can be in its room of `d` one turn later.
fn moves_ok(map: &Farm, c: &Vec<usize>, d: &Vec<usize>) -> (b: bool)
    requires
        map.wf(),
    ensures
        b == moves_to(map.graph(), c@, d@),
{
    if c.len() != d.len() {
        return false;
    }
    let mut i: usize = 0;
    while i < c.len()
        invariant
            map.wf(),
            c.len() == d.len(),
            i <= c.len(),
            forall|j: int| 0 <= j < i ==> #[trigger] valid_move(map.graph(), c@[j], d@[j]),
        decreases c.len() - i,
    {
        if !is_move(map, c[i], d[i]) {
            return false;
        }
        i += 1;
    }
    true
}

/// The number of lists of rooms of `k` ants among `n` rooms, when it is at most
/// [`SEARCH_LIMIT`].
fn search_size(n: usize, k: usize) -> (r: Option<usize>)
    requires
        n >= 1,
    ensures
        match r {
            Some(size) => size == power(n as nat, k as nat) && size <= SEARCH_LIMIT,
            None => power(n as nat, k as nat) > SEARCH_LIMIT,
        },
{
    let ghost nn = n as nat;
    let mut size: usize = 1;
    let mut e: usize = 0;
    while e < k
        invariant
            nn == n,
            n >= 1,
            e <= k,
            size == power(nn, e as nat),
            size <= SEARCH_LIMIT,
        decreases k - e,
    {
        if size > SEARCH_LIMIT / n {
            proof {
                assert(size * n > SEARCH_LIMIT) by (nonlinear_arith)
                    requires
                        size > SEARCH_LIMIT / n,
                        n >= 1,
                ;
                lemma_power_grows(nn, (e + 1) as nat, k as nat);
            }
            return None;
        }
        proof {
            assert(size * n <= SEARCH_LIMIT) by (nonlinear_arith)
                requires
                    size <= SEARCH_LIMIT / n,
                    n >= 1,
            ;
        }
        size = size * n;
        e += 1;
    }
    Some(size)
}

/// Finds the fewest turns in which all the ants can go from the start room to the end
/// room, each turn waiting or moving through a tube, with no room but those two ever
/// holding two ants, and returns a routing that takes that many turns.  The search runs
/// through every combination of rooms, so it runs only when the number of rooms to the
/// power of the number of ants is at most [`SEARCH_LIMIT`]; it also needs the routing of
/// [`repeated_bfs`], which bounds its length.
pub fn quickest_routing(map: &Farm) -> (result: Option<Vec<Path>>)
    requires
        map.wf(),
        map.start != map.end,
        connected(map.graph(), map.start, map.end),
    ensures
        match result {
            Some(paths) => {
                &&& paths.len() == map.ants
                &&& valid_routing(map.graph(), map.start, map.end, paths_view(paths@))
                &&& stays_arrived(map.end, paths_view(paths@))
                &&& quickest(map.graph(), map.start, map.end, paths_view(paths@))
                &&& forall|a: int, b: int|
                    0 <= a < paths.len() && 0 <= b < paths.len() ==> #[trigger] paths@[a].len()
                        == #[trigger] paths@[b].len()
            },
            None => power(map.rooms.len() as nat, map.ants as nat) > SEARCH_LIMIT || exists|
                before: Seq<Seq<usize>>,
            |
                {
                    &&& before.len() < map.ants
                    &&& routed(map.graph(), map.start, map.end, before)
                    &&& !#[trigger] reach(
                        map.graph(),
                        map.start,
                        reservations(before),
                        (usize::MAX - 1) as nat,
                    ).contains(map.end)
                },
        },
{
    let ghost g = map.graph();
    let k = map.ants as usize;
    let n = map.rooms.len();
    let ghost nn = n as nat;
    proof {
        assert(map.start < n);
    }
    let size = match search_size(n, k) {
        Some(size) => size,
        None => {
            return None;
        },
    };
    let greedy = match repeated_bfs(map) {
        Some(paths) => paths,
        None => {
            return None;
        },
    };
    let ghost gp = paths_view(greedy@);
    proof {
        lemma_routing_is_valid(g, map.start, map.end, gp);
    }
    let mut bound: usize = 0;
    let mut a: usize = 0;
    while a < greedy.len()
        invariant
            a <= greedy.len(),
            gp == paths_view(greedy@),
            valid_routing(g, map.start, map.end, gp),
            forall|b: int| 0 <= b < a ==> #[trigger] gp[b].len() <= bound + 1,
            bound < usize::MAX,
        decreases greedy.len() - a,
    {
        proof {
            assert(arrives(g, map.start, Seq::<Set<usize>>::empty(), map.end, gp[a as int]));
            assert(gp[a as int] == greedy@[a as int]@);
        }
        if greedy[a].len() - 1 > bound {
            bound = greedy[a].len() - 1;
        }
        a += 1;
    }
    let ghost all_end = all_at(k as nat, map.end);
    proof {
        lemma_routing_done(g, map.start, map.end, gp, bound as nat);
        assert(gp.len() == k);
    }
    let mut layers: Vec<Vec<Vec<usize>>> = Vec::new();
    let mut first: Vec<Vec<usize>> = Vec::new();
    first.push(make_all(k, map.start));
    proof {
        assert(map.start < nn);
        assert(rooms_below(first@[0]@, nn));
        assert forall|c: Seq<usize>| #[trigger] joint_reach(g, map.start, map.end, k as nat, 0).contains(c)
            implies exists|j: int| 0 <= j < first.len() && #[trigger] first@[j]@ == c by {
            assert(first@[0]@ == c);
        }
    }
    layers.push(first);
    let mut t: usize = 0;
    let mut done = false;
    let mut fi: usize = 0;
    while !done
        invariant
            map.wf(),
            g == map.graph(),
            n == map.rooms.len(),
            nn == n,
            k == map.ants,
            size == power(nn, k as nat),
            all_end == all_at(k as nat, map.end),
            joint_reach(g, map.start, map.end, k as nat, bound as nat).contains(all_end),
            layers.len() == t + 1,
            t <= bound,
            bound < usize::MAX,
            forall|u: int|
                0 <= u <= t ==> layer_is(g, map.start, map.end, k as nat, nn, #[trigger] layers@[u]@, u as nat),
            forall|u: nat| u < t ==> !#[trigger] joint_reach(g, map.start, map.end, k as nat, u).contains(all_end),
            done ==> fi < layers@[t as int].len() && layers@[t as int]@[fi as int]@ == all_end,
        decreases bound - t + (if done { 0int } else { 1int }),
    {
        let layer = &layers[t];
        let mut i: usize = 0;
        while i < layer.len() && !done
            invariant
                layer == layers@[t as int],
                i <= layer.len(),
                all_end == all_at(k as nat, map.end),
                layer_is(g, map.start, map.end, k as nat, nn, layer@, t as nat),
                forall|j: int| 0 <= j < i ==> #[trigger] layer@[j]@ != all_end,
                done ==> fi < layer.len() && layer@[fi as int]@ == all_end,
            decreases layer.len() - i + (if done { 0int } else { 1int }),
        {
            if is_all(&layer[i], map.end) {
                proof {
                    assert(layer@[i as int]@.len() == k);
                }
                done = true;
                fi = i;
            } else {
                proof {
                    assert(layer@[i as int]@.len() == k);
                }
                i += 1;
            }
        }
        if !done {
            proof {
                if joint_reach(g, map.start, map.end, k as nat, t as nat).contains(all_end) {
                    let j = choose|j: int| 0 <= j < layer.len() && #[trigger] layer@[j]@ == all_end;
                }
                assert(t != bound);
            }
            let next = next_layer(map, k, size, layer, Ghost(t as nat));
            layers.push(next);
            t += 1;
        }
    }
    let total = t;
    let mut chain: Vec<Vec<usize>> = Vec::new();
    while chain.len() <= total
        invariant
            chain.len() <= total + 1,
            forall|u: int| 0 <= u < chain.len() ==> #[trigger] chain@[u]@ == all_end,
            all_end == all_at(k as nat, map.end),
        decreases total + 1 - chain.len(),
    {
        chain.push(make_all(k, map.end));
    }
    proof {
        assert(layer_is(g, map.start, map.end, k as nat, nn, layers@[total as int]@, total as nat));
        assert(joint_reach(g, map.start, map.end, k as nat, total as nat).contains(layers@[total as int]@[fi as int]@));
    }
    let mut s: usize = total;
    while s > 0
        invariant
            map.wf(),
            g == map.graph(),
            nn == map.rooms.len(),
            k == map.ants,
            layers.len() == total + 1,
            forall|u: int|
                0 <= u <= total ==> layer_is(g, map.start, map.end, k as nat, nn, #[trigger] layers@[u]@, u as nat),
            chain.len() == total + 1,
            forall|u: int| 0 <= u <= total ==> (#[trigger] chain@[u])@.len() == k,
            s <= total,
            joint_reach(g, map.start, map.end, k as nat, s as nat).contains(chain@[s as int]@),
            chain@[total as int]@ == all_end,
            forall|u: int| s < u <= total ==> #[trigger] joint_step(g, map.start, map.end, chain@[u - 1]@, chain@[u]@),
        decreases s,
    {
        let layer = &layers[s - 1];
        let ghost d = chain@[s as int]@;
        proof {
            assert(layer_is(g, map.start, map.end, k as nat, nn, layers@[s - 1]@, (s - 1) as nat));
        }
        let mut i: usize = 0;
        while i < layer.len() && !(moves_ok(map, &layer[i], &chain[s]) && keeps_arrived(
            map.end,
            &layer[i],
            &chain[s],
        ))
            invariant
                map.wf(),
                g == map.graph(),
                layer == layers@[s - 1],
                s < chain.len(),
                d == chain@[s as int]@,
                i <= layer.len(),
                forall|j: int|
                    0 <= j < i ==> !(moves_to(g, #[trigger] layer@[j]@, d) && arrived_stay(map.end, layer@[j]@, d)),
            decreases layer.len() - i,
        {
            i += 1;
        }
        if i == layer.len() {
            proof {
                let c = choose|c: Seq<usize>|
                    #[trigger] joint_reach(g, map.start, map.end, k as nat, (s - 1) as nat).contains(c)
                        && joint_step(g, map.start, map.end, c, d);
                let j = choose|j: int| 0 <= j < layer.len() && #[trigger] layer@[j]@ == c;
                assert(!(moves_to(g, layer@[j]@, d) && arrived_stay(map.end, layer@[j]@, d)));
            }
            return None;
        }
        let c = copy_rooms(&layer[i]);
        proof {
            let pre = choose|c: Seq<usize>|
                #[trigger] joint_reach(g, map.start, map.end, k as nat, (s - 1) as nat).contains(c)
                    && joint_step(g, map.start, map.end, c, d);
            assert(spread(map.start, map.end, d));
            assert(joint_step(g, map.start, map.end, c@, d));
            assert(joint_reach(g, map.start, map.end, k as nat, (s - 1) as nat).contains(layer@[i as int]@));
        }
        let ghost before = chain@;
        proof {
            assert(layer@[i as int]@.len() == k);
        }
        chain.set(s - 1, c);
        proof {
            assert forall|u: int| 0 <= u <= total implies (#[trigger] chain@[u])@.len() == k by {
                if u != s - 1 {
                    assert(chain@[u] == before[u]);
                }
            }
            assert forall|u: int| s - 1 < u <= total implies #[trigger] joint_step(
                g,
                map.start,
                map.end,
                chain@[u - 1]@,
                chain@[u]@,
            ) by {
                if u > s {
                    assert(chain@[u - 1] == before[u - 1] && chain@[u] == before[u]);
                    assert(joint_step(g, map.start, map.end, before[u - 1]@, before[u]@));
                }
            }
        }
        s -= 1;
    }
    let mut paths: Vec<Path> = Vec::new();
    let mut a: usize = 0;
    proof {
        assert(chain@[0]@ == all_at(k as nat, map.start));
    }
    let ghost ch = chain@;
    while a < k
        invariant
            chain@ == ch,
            ch.len() == total + 1,
            forall|u: int| 0 <= u <= total ==> (#[trigger] ch[u])@.len() == k,
            a <= k,
            total < usize::MAX,
            paths.len() == a,
            forall|b: int|
                0 <= b < a ==> (#[trigger] paths@[b])@ == Seq::new((total + 1) as nat, |u: int| ch[u]@[b]),
        decreases k - a,
    {
        let mut p: Path = Vec::new();
        let mut u: usize = 0;
        while u <= total
            invariant
                chain@ == ch,
                ch.len() == total + 1,
                forall|w: int| 0 <= w <= total ==> (#[trigger] ch[w])@.len() == k,
                a < k,
                total < usize::MAX,
                u <= total + 1,
                p@ == Seq::new(u as nat, |w: int| ch[w]@[a as int]),
            decreases total + 1 - u,
        {
            p.push(chain[u][a]);
            proof {
                assert(p@ =~= Seq::new((u + 1) as nat, |w: int| ch[w]@[a as int]));
            }
            u += 1;
        }
        paths.push(p);
        a += 1;
    }
    proof {
        let pv = paths_view(paths@);
        let none = Seq::<Set<usize>>::empty();
        assert(ch[0]@ == all_at(k as nat, map.start));
        assert forall|b: int| 0 <= b < pv.len() implies #[trigger] pv[b] == Seq::new(
            (total + 1) as nat,
            |u: int| ch[u]@[b],
        ) by {
            assert(pv[b] == paths@[b]@);
        }
        assert forall|b: int| 0 <= b < pv.len() implies #[trigger] arrives(g, map.start, none, map.end, pv[b]) by {
            let pb = pv[b];
            assert(pb == Seq::new((total + 1) as nat, |u: int| ch[u]@[b]));
            assert(pb[0] == ch[0]@[b]);
            assert(all_at(k as nat, map.start)[b] == map.start);
            assert forall|u: int| 1 <= u < pb.len() implies #[trigger] step_ok(g, none, pb, u) by {
                assert(joint_step(g, map.start, map.end, ch[u - 1]@, ch[u]@));
                assert(valid_move(g, ch[u - 1]@[b], ch[u]@[b]));
                assert(pb[u - 1] == ch[u - 1]@[b] && pb[u] == ch[u]@[b]);
            }
            assert(pb[total as int] == ch[total as int]@[b]);
            assert(all_at(k as nat, map.end)[b] == map.end);
        }
        assert forall|x: int, y: int, u: int|
            #![trigger pv[x][u], pv[y][u]]
            0 <= x < pv.len() && 0 <= y < pv.len() && x != y && 0 <= u < pv[x].len() && u < pv[y].len()
                && pv[x][u] == pv[y][u] implies pv[x][u] == map.start || pv[x][u] == map.end by {
            assert(pv[x] == Seq::new((total + 1) as nat, |w: int| ch[w]@[x]));
            assert(pv[y] == Seq::new((total + 1) as nat, |w: int| ch[w]@[y]));
            assert(pv[x][u] == ch[u]@[x] && pv[y][u] == ch[u]@[y]);
            if u == 0 {
                assert(all_at(k as nat, map.start)[x] == map.start);
            } else {
                assert(joint_step(g, map.start, map.end, ch[u - 1]@, ch[u]@));
                assert(ch[u]@[x] == ch[u]@[y]);
            }
        }
        assert(valid_routing(g, map.start, map.end, pv));
        let rows = Seq::new(ch.len(), |u: int| ch[u]@);
        assert forall|u: int| 1 <= u < rows.len() implies #[trigger] arrived_stay(map.end, rows[u - 1], rows[u]) by {
            assert(joint_step(g, map.start, map.end, ch[u - 1]@, ch[u]@));
        }
        assert forall|x: int, t1: int, t2: int|
            #![trigger pv[x][t1], pv[x][t2]]
            0 <= x < pv.len() && 0 <= t1 <= t2 < pv[x].len() && pv[x][t1] == map.end implies pv[x][t2]
            == map.end by {
            assert(pv[x] == Seq::new((total + 1) as nat, |w: int| ch[w]@[x]));
            assert(rows[t1][x] == map.end);
            lemma_rows_stay(rows, map.end, k as nat, x, t1, t2);
        }
        assert forall|other: Seq<Seq<usize>>, turns: nat|
            valid_routing(g, map.start, map.end, other) && other.len() == pv.len() && #[trigger] finishes_within(
                other,
                turns,
            ) implies finishes_within(pv, turns) by {
            lemma_routing_done(g, map.start, map.end, other, turns);
            if turns < total {
                assert(!joint_reach(g, map.start, map.end, k as nat, turns).contains(all_end));
            }
            assert forall|b: int| 0 <= b < pv.len() implies #[trigger] pv[b].len() <= turns + 1 by {
                assert(pv[b] == Seq::new((total + 1) as nat, |w: int| ch[w]@[b]));
            }
        }
        assert forall|x: int, y: int| 0 <= x < paths.len() && 0 <= y < paths.len() implies #[trigger] paths@[x].len()
            == #[trigger] paths@[y].len() by {
            assert(paths@[x]@ == Seq::new((total + 1) as nat, |w: int| ch[w]@[x]));
            assert(paths@[y]@ == Seq::new((total + 1) as nat, |w: int| ch[w]@[y]));
        }
    }
    Some(paths)
}

/// Routes the ants: along a quickest routing when the search can run (see
/// [`quickest_routing`]), and otherwise one after another as [`repeated_bfs`] does; that
/// routing too is a quickest one when every ant arrives with the first.
pub fn route(map: &Farm) -> (result: Option<Vec<Path>>)
    requires
        map.wf(),
        map.start != map.end,
        connected(map.graph(), map.start, map.end),
    ensures
        match result {
            Some(paths) => {
                &&& paths.len() == map.ants
                &&& valid_routing(map.graph(), map.start, map.end, paths_view(paths@))
                &&& stays_arrived(map.end, paths_view(paths@))
                &&& power(map.rooms.len() as nat, map.ants as nat) <= SEARCH_LIMIT ==> quickest(
                    map.graph(),
                    map.start,
                    map.end,
                    paths_view(paths@),
                )
                &&& (paths.len() > 0 && finishes_within(
                    paths_view(paths@),
                    (paths@[0].len() - 1) as nat,
                )) ==> quickest(map.graph(), map.start, map.end, paths_view(paths@))
                &&& power(map.rooms.len() as nat, map.ants as nat) > SEARCH_LIMIT ==> routed(
                    map.graph(),
                    map.start,
                    map.end,
                    paths_view(paths@),
                )
            },
            None => exists|before: Seq<Seq<usize>>|
                {
                    &&& before.len() < map.ants
                    &&& routed(map.graph(), map.start, map.end, before)
                    &&& !#[trigger] reach(
                        map.graph(),
                        map.start,
                        reservations(before),
                        (usize::MAX - 1) as nat,
                    ).contains(map.end)
                },
        },
{
    proof {
        assert(map.start < map.rooms.len());
    }
    match search_size(map.rooms.len(), map.ants as usize) {
        Some(_) => quickest_routing(map),
        None => {
            let r = repeated_bfs(map);
            proof {
                if r is Some {
                    let pv = paths_view(r->Some_0@);
                    lemma_routing_is_valid(map.graph(), map.start, map.end, pv);
                    lemma_routed_ants_stay(map.graph(), map.start, map.end, pv);
                    if pv.len() > 0 && finishes_within(pv, (pv[0].len() - 1) as nat) {
                        assert forall|other: Seq<Seq<usize>>, turns: nat|
                            valid_routing(map.graph(), map.start, map.end, other) && other.len() == pv.len()
                                && #[trigger] finishes_within(other, turns) implies finishes_within(pv, turns) by {
                            lemma_first_ant_quickest(map.graph(), map.start, map.end, pv, other, 0);
                            assert(other[0].len() <= turns + 1);
                            assert(arrives(map.graph(), map.start, Seq::<Set<usize>>::empty(), map.end, pv[0]));
                            assert(pv[0].len() <= turns + 1);
                            assert forall|b: int| 0 <= b < pv.len() implies #[trigger] pv[b].len() <= turns + 1 by {
                                assert(pv[b].len() <= (pv[0].len() - 1) as nat + 1);
                            }
                        }
                    }
                }
            }
            r
        },
    }
}

/// Law: a quickest routing never takes more turns than the ants routed one after another.
pub proof fn lemma_quickest_beats_greedy(
    g: Seq<Seq<usize>>,
    start: usize,
    end: usize,
    best: Seq<Seq<usize>>,
    greedy: Seq<Seq<usize>>,
    turns: nat,
)
    requires
        quickest(g, start, end, best),
        routed(g, start, end, greedy),
        greedy.len() == best.len(),
        finishes_within(greedy, turns),
    ensures
        finishes_within(best, turns),
{
    lemma_routing_is_valid(g, start, end, greedy);
}

} // verus!
