//! The mathematics of routing: a farm graph, the rooms that earlier ants reserve at each
//! turn, the rooms an ant can be in at each turn, and schedules.
use vstd::prelude::*;
use vstd::set_lib::*;

verus! {

/// Every adjacency list of `g` holds indices below `n`, and there are `n` lists.
pub open spec fn graph_bounded(g: Seq<Seq<usize>>, n: nat) -> bool {
    &&& g.len() == n
    &&& forall|i: int, j: int| 0 <= i < g.len() && 0 <= j < g[i].len() ==> #[trigger] g[i][j] < n
}

/// There is a tube from room `p` to room `r`.
pub open spec fn edge(g: Seq<Seq<usize>>, p: usize, r: usize) -> bool {
    p < g.len() && g[p as int].contains(r)
}

/// Room `r` is reserved by an earlier ant at turn `t`.
pub open spec fn blocked(used: Seq<Set<usize>>, r: usize, t: int) -> bool {
    0 <= t < used.len() && used[t].contains(r)
}

/// The rooms that can be entered at turn `t` from a room of `prev` through a tube.
pub open spec fn step_set(g: Seq<Seq<usize>>, used: Seq<Set<usize>>, prev: Set<usize>, t: int) -> Set<
    usize,
> {
    Set::new(
        |r: usize| !blocked(used, r, t) && exists|p: usize| #[trigger] prev.contains(p) && edge(g, p, r),
    )
}

/// The rooms in which an ant that leaves `start` at turn 0 can be at turn `t`: it may wait
/// in its room, or move through a tube into a room that is not reserved at that turn.
pub open spec fn reach(g: Seq<Seq<usize>>, start: usize, used: Seq<Set<usize>>, t: nat) -> Set<usize>
    decreases t,
{
    if t == 0 {
        set![start]
    } else {
        let prev = reach(g, start, used, (t - 1) as nat);
        prev.union(step_set(g, used, prev, t as int))
    }
}

/// Room `end` can be reached from `start` through the tubes.
pub open spec fn connected(g: Seq<Seq<usize>>, start: usize, end: usize) -> bool {
    exists|k: nat| #[trigger] reach(g, start, Seq::<Set<usize>>::empty(), k).contains(end)
}

/// Between turns `t - 1` and `t` an ant either waits, or moves through a tube into a room
/// that no earlier ant holds at turn `t`.
pub open spec fn valid_step(g: Seq<Seq<usize>>, used: Seq<Set<usize>>, a: usize, b: usize, t: int) -> bool {
    a == b || (edge(g, a, b) && !blocked(used, b, t))
}

/// The step of `path` that ends at turn `t` is valid.
pub open spec fn step_ok(g: Seq<Seq<usize>>, used: Seq<Set<usize>>, path: Seq<usize>, t: int) -> bool {
    valid_step(g, used, path[t - 1], path[t], t)
}

/// `path[t]` is the room of an ant at turn `t`: it starts at `start` and every step is valid.
pub open spec fn is_schedule(g: Seq<Seq<usize>>, start: usize, used: Seq<Set<usize>>, path: Seq<usize>) -> bool {
    &&& path.len() >= 1
    &&& path[0] == start
    &&& forall|t: int| 1 <= t < path.len() ==> #[trigger] step_ok(g, used, path, t)
}

/// `path` is a schedule that ends in room `end`.
pub open spec fn arrives(
    g: Seq<Seq<usize>>,
    start: usize,
    used: Seq<Set<usize>>,
    end: usize,
    path: Seq<usize>,
) -> bool {
    is_schedule(g, start, used, path) && path.last() == end
}

/// `path` reaches `end` and no schedule reaches `end` in fewer turns.
pub open spec fn earliest_arrival(
    g: Seq<Seq<usize>>,
    start: usize,
    used: Seq<Set<usize>>,
    end: usize,
    path: Seq<usize>,
) -> bool {
    &&& arrives(g, start, used, end, path)
    &&& forall|other: Seq<usize>| #[trigger]
        arrives(g, start, used, end, other) ==> path.len() <= other.len()
}

pub proof fn lemma_step_set_contains(
    g: Seq<Seq<usize>>,
    used: Seq<Set<usize>>,
    prev: Set<usize>,
    t: int,
    p: usize,
    r: usize,
)
    requires
        prev.contains(p),
        edge(g, p, r),
        !blocked(used, r, t),
    ensures
        step_set(g, used, prev, t).contains(r),
{
}

/// What can be reached at turn `a` can be reached at any later turn.
pub proof fn lemma_reach_mono(g: Seq<Seq<usize>>, start: usize, used: Seq<Set<usize>>, a: nat, b: nat)
    requires
        a <= b,
    ensures
        reach(g, start, used, a).subset_of(reach(g, start, used, b)),
    decreases b,
{
    if a < b {
        lemma_reach_mono(g, start, used, a, (b - 1) as nat);
    }
}

/// Every room of a schedule is reachable at its turn.
pub proof fn lemma_schedule_in_reach(
    g: Seq<Seq<usize>>,
    start: usize,
    used: Seq<Set<usize>>,
    path: Seq<usize>,
    i: int,
)
    requires
        is_schedule(g, start, used, path),
        0 <= i < path.len(),
    ensures
        reach(g, start, used, i as nat).contains(path[i]),
    decreases i,
{
    if i > 0 {
        lemma_schedule_in_reach(g, start, used, path, i - 1);
        assert(step_ok(g, used, path, i));
        let prev = reach(g, start, used, (i - 1) as nat);
        if path[i - 1] != path[i] {
            lemma_step_set_contains(g, used, prev, i, path[i - 1], path[i]);
        }
    }
}

/// The reachable rooms are rooms of the graph.
pub proof fn lemma_reach_bounded(
    g: Seq<Seq<usize>>,
    start: usize,
    used: Seq<Set<usize>>,
    n: nat,
    t: nat,
)
    requires
        graph_bounded(g, n),
        start < n,
        n <= usize::MAX,
    ensures
        reach(g, start, used, t).subset_of(Set::<usize>::range(0, n as usize)),
        reach(g, start, used, t).finite(),
        reach(g, start, used, t).len() <= n,
    decreases t,
{
    broadcast use range_set_properties, lemma_set_subset_finite;

    let rng = Set::<usize>::range(0, n as usize);
    if t > 0 {
        lemma_reach_bounded(g, start, used, n, (t - 1) as nat);
        let prev = reach(g, start, used, (t - 1) as nat);
        assert forall|r: usize| #[trigger] reach(g, start, used, t).contains(r) implies rng.contains(r) by {
            if !prev.contains(r) {
                let p = choose|p: usize| #[trigger] prev.contains(p) && edge(g, p, r);
                let j = choose|j: int| 0 <= j < g[p as int].len() && g[p as int][j] == r;
                assert(g[p as int][j] < n);
            }
        }
    }
    lemma_len_subset(reach(g, start, used, t), rng);
}

/// If no room is added between turns `t` and `t + 1` and no room is reserved after `t`,
/// every room reachable through the tubes is already reachable at `t`.
pub proof fn lemma_closed_contains_free(
    g: Seq<Seq<usize>>,
    start: usize,
    used: Seq<Set<usize>>,
    t: nat,
    j: nat,
)
    requires
        t >= used.len(),
        reach(g, start, used, (t + 1) as nat).subset_of(reach(g, start, used, t)),
    ensures
        reach(g, start, Seq::<Set<usize>>::empty(), j).subset_of(reach(g, start, used, t)),
    decreases j,
{
    let free = Seq::<Set<usize>>::empty();
    let rt = reach(g, start, used, t);
    if j == 0 {
        lemma_reach_mono(g, start, used, 0, t);
    } else {
        lemma_closed_contains_free(g, start, used, t, (j - 1) as nat);
        let prev = reach(g, start, free, (j - 1) as nat);
        assert forall|r: usize| #[trigger] reach(g, start, free, j).contains(r) implies rt.contains(r) by {
            if !prev.contains(r) {
                let p = choose|p: usize| #[trigger] prev.contains(p) && edge(g, p, r);
                lemma_step_set_contains(g, used, rt, (t + 1) as int, p, r);
            }
        }
    }
}

/// Once no room is reserved, the reachable set grows at every turn until it holds `end`.
proof fn lemma_growth(g: Seq<Seq<usize>>, start: usize, used: Seq<Set<usize>>, end: usize, t: nat)
    requires
        t >= used.len(),
        connected(g, start, end),
        !reach(g, start, used, t).contains(end),
    ensures
        exists|r: usize|
            #[trigger] reach(g, start, used, (t + 1) as nat).contains(r) && !reach(
                g,
                start,
                used,
                t,
            ).contains(r),
{
    if !(exists|r: usize|
        #[trigger] reach(g, start, used, (t + 1) as nat).contains(r) && !reach(
            g,
            start,
            used,
            t,
        ).contains(r)) {
        let k = choose|k: nat| #[trigger] reach(g, start, Seq::<Set<usize>>::empty(), k).contains(end);
        lemma_closed_contains_free(g, start, used, t, k);
    }
}

proof fn lemma_reach_size(
    g: Seq<Seq<usize>>,
    start: usize,
    used: Seq<Set<usize>>,
    end: usize,
    n: nat,
    k: nat,
)
    requires
        graph_bounded(g, n),
        start < n,
        n <= usize::MAX,
        connected(g, start, end),
        !reach(g, start, used, (used.len() + k) as nat).contains(end),
    ensures
        reach(g, start, used, (used.len() + k) as nat).len() >= k + 1,
    decreases k,
{
    let tt = (used.len() + k) as nat;
    lemma_reach_bounded(g, start, used, n, tt);
    if k == 0 {
        lemma_reach_mono(g, start, used, 0, tt);
        assert(reach(g, start, used, tt).contains(start));
        vstd::set::axiom_set_remove_len(reach(g, start, used, tt), start);
    } else {
        let tp = (tt - 1) as nat;
        lemma_reach_mono(g, start, used, tp, tt);
        lemma_reach_size(g, start, used, end, n, (k - 1) as nat);
        lemma_reach_bounded(g, start, used, n, tp);
        lemma_growth(g, start, used, end, tp);
        let r = choose|r: usize|
            #[trigger] reach(g, start, used, tt).contains(r) && !reach(g, start, used, tp).contains(r);
        let bigger = reach(g, start, used, tp).insert(r);
        vstd::set::axiom_set_insert_len(reach(g, start, used, tp), r);
        lemma_len_subset(bigger, reach(g, start, used, tt));
    }
}

/// While `end` is not reachable at turn `t`, `t` is below the number of reserved turns
/// plus the number of rooms.
pub proof fn lemma_time_bound(
    g: Seq<Seq<usize>>,
    start: usize,
    used: Seq<Set<usize>>,
    end: usize,
    n: nat,
    t: nat,
)
    requires
        graph_bounded(g, n),
        start < n,
        n <= usize::MAX,
        connected(g, start, end),
        !reach(g, start, used, t).contains(end),
    ensures
        t < used.len() + n,
{
    if t >= used.len() {
        let k = (t - used.len()) as nat;
        lemma_reach_size(g, start, used, end, n, k);
        lemma_reach_bounded(g, start, used, n, t);
    } else {
        assert(start < n);
    }
}

/// The reservation of turn `t` before any update: none beyond the recorded turns.
pub open spec fn reserved_at(used: Seq<Set<usize>>, t: int) -> Set<usize> {
    if 0 <= t < used.len() {
        used[t]
    } else {
        Set::empty()
    }
}

/// The reservations after the rooms `path[1]` .. `path[k - 1]` are reserved at their turns;
/// the table grows to `k` turns when it is shorter and a room is reserved.
pub open spec fn reserve_upto(used: Seq<Set<usize>>, path: Seq<usize>, k: int) -> Seq<Set<usize>> {
    let len = if k > 1 && used.len() < k {
        k as nat
    } else {
        used.len()
    };
    Seq::new(
        len,
        |t: int|
            reserved_at(used, t).union(
                if 1 <= t < k {
                    set![path[t]]
                } else {
                    Set::empty()
                },
            ),
    )
}

/// The reservations once an ant with schedule `path` is routed: the rooms it holds at every
/// turn strictly between its first and its last.
pub open spec fn reserve(used: Seq<Set<usize>>, path: Seq<usize>) -> Seq<Set<usize>> {
    reserve_upto(used, path, path.len() - 1)
}

/// The reservations made by the ants routed in order along `paths`.
pub open spec fn reservations(paths: Seq<Seq<usize>>) -> Seq<Set<usize>>
    decreases paths.len(),
{
    if paths.len() == 0 {
        Seq::empty()
    } else {
        reserve(reservations(paths.drop_last()), paths.last())
    }
}

/// A search tree: for each room, the room it was entered from and the turn, once entered.
pub type Tree = Seq<Option<(usize, usize)>>;

/// The search tree before any room is expanded: only `start`, entered at turn 0.
pub open spec fn initial_tree(n: nat, start: usize) -> Tree {
    Seq::new(
        n,
        |i: int|
            if i == start {
                Some((start, 0usize))
            } else {
                None
            },
    )
}

/// Examining the first `j` tubes of room `p` at turn `t`: each room at the other end that
/// is not in the tree yet and is free at turn `t + 1` is entered from `p` and queued.
pub open spec fn visit_tubes(
    g: Seq<Seq<usize>>,
    used: Seq<Set<usize>>,
    t: int,
    p: usize,
    tree: Tree,
    queued: Seq<usize>,
    j: int,
) -> (Tree, Seq<usize>)
    decreases j,
{
    if j <= 0 {
        (tree, queued)
    } else {
        let (tr, q) = visit_tubes(g, used, t, p, tree, queued, j - 1);
        let nb = g[p as int][j - 1];
        if tr[nb as int] is None && !blocked(used, nb, t + 1) {
            (tr.update(nb as int, Some((p, (t + 1) as usize))), q.push(nb))
        } else {
            (tr, q)
        }
    }
}

/// Expanding the first `k` rooms of `layer`, the rooms of turn `t` in queue order: each
/// room queues its newly entered neighbours for turn `t + 1`, then itself.
pub open spec fn expand_layer(
    g: Seq<Seq<usize>>,
    used: Seq<Set<usize>>,
    t: int,
    layer: Seq<usize>,
    tree: Tree,
    k: int,
) -> (Tree, Seq<usize>)
    decreases k,
{
    if k <= 0 {
        (tree, seq![])
    } else {
        let (tr, q) = expand_layer(g, used, t, layer, tree, k - 1);
        let p = layer[k - 1];
        let (tr2, q2) = visit_tubes(g, used, t, p, tr, q, g[p as int].len() as int);
        (tr2, q2.push(p))
    }
}

/// The search tree and the queue of rooms when turn `t` begins.
pub open spec fn search_state(
    g: Seq<Seq<usize>>,
    used: Seq<Set<usize>>,
    start: usize,
    n: nat,
    t: nat,
) -> (Tree, Seq<usize>)
    decreases t,
{
    if t == 0 {
        (initial_tree(n, start), seq![start])
    } else {
        let (tr, layer) = search_state(g, used, start, n, (t - 1) as nat);
        expand_layer(g, used, t - 1, layer, tr, layer.len() as int)
    }
}

/// The turn at which room `r` entered the tree (0 when it has not).
pub open spec fn arrival(tree: Tree, r: usize) -> nat {
    if r < tree.len() && tree[r as int] is Some {
        tree[r as int].unwrap().1 as nat
    } else {
        0
    }
}

/// The room held at turn `k` by an ant that follows the tree to room `r`: `r` from its
/// arrival on, before that the room it was entered from, and so on back to the root.
pub open spec fn occupant(tree: Tree, r: usize, k: int) -> usize
    decreases arrival(tree, r),
{
    if k >= arrival(tree, r) || !(r < tree.len() && tree[r as int] is Some) {
        r
    } else {
        let p = tree[r as int].unwrap().0;
        if arrival(tree, p) < arrival(tree, r) {
            occupant(tree, p, k)
        } else {
            r
        }
    }
}

/// The schedule read off the tree for room `r`: the room held at every turn up to the
/// arrival in `r`.
pub open spec fn tree_schedule(tree: Tree, r: usize) -> Seq<usize> {
    Seq::new(arrival(tree, r) + 1, |k: int| occupant(tree, r, k))
}

/// The ant enters room `path[t]` at turn `t` only when it could not be there at turn `t - 1`.
pub open spec fn entered_first(
    g: Seq<Seq<usize>>,
    start: usize,
    used: Seq<Set<usize>>,
    path: Seq<usize>,
    t: int,
) -> bool {
    path[t] != path[t - 1] ==> !reach(g, start, used, (t - 1) as nat).contains(path[t])
}

/// When the ant is in the same room at turns `t1` and `t3`, it is there at turn `t2` too.
pub open spec fn stays_between(path: Seq<usize>, t1: int, t2: int, t3: int) -> bool {
    path[t1] == path[t3] ==> path[t2] == path[t1]
}

/// Every room of `path` is entered at the first turn it can be reached, and the ant stays
/// in it from then until it leaves it for good.
pub open spec fn first_visits(g: Seq<Seq<usize>>, start: usize, used: Seq<Set<usize>>, path: Seq<usize>) -> bool {
    &&& forall|t: int| 1 <= t < path.len() ==> #[trigger] entered_first(g, start, used, path, t)
    &&& forall|t1: int, t2: int, t3: int|
        0 <= t1 <= t2 <= t3 < path.len() ==> #[trigger] stays_between(path, t1, t2, t3)
}

/// Ant `k` reaches `end` as early as it can given the rooms reserved by the ants routed
/// before it, entering every room of its way at the first turn it can be reached; its
/// schedule is the one read off the breadth-first search tree of that turn.
pub open spec fn routed_at(g: Seq<Seq<usize>>, start: usize, end: usize, paths: Seq<Seq<usize>>, k: int) -> bool {
    &&& earliest_arrival(g, start, reservations(paths.take(k)), end, paths[k])
    &&& first_visits(g, start, reservations(paths.take(k)), paths[k])
    &&& paths[k] == tree_schedule(
        search_state(g, reservations(paths.take(k)), start, g.len(), (paths[k].len() - 1) as nat).0,
        end,
    )
}

/// Every ant is routed as [`routed_at`] says.
pub open spec fn routed(g: Seq<Seq<usize>>, start: usize, end: usize, paths: Seq<Seq<usize>>) -> bool {
    forall|k: int| 0 <= k < paths.len() ==> #[trigger] routed_at(g, start, end, paths, k)
}

/// Reservations are never withdrawn.
pub proof fn lemma_reserve_keeps(used: Seq<Set<usize>>, path: Seq<usize>, t: int, r: usize)
    requires
        0 <= t < used.len(),
        used[t].contains(r),
    ensures
        t < reserve(used, path).len(),
        reserve(used, path)[t].contains(r),
{
}

/// A room that an ant holds strictly between its first and last turn stays reserved at that
/// turn for every later ant.
pub proof fn lemma_reserved_for_later(paths: Seq<Seq<usize>>, i: int, j: int, t: int)
    requires
        0 <= i < j <= paths.len(),
        1 <= t < paths[i].len() - 1,
    ensures
        t < reservations(paths.take(j)).len(),
        reservations(paths.take(j))[t].contains(paths[i][t]),
    decreases j,
{
    let pj = paths.take(j);
    assert(pj.drop_last() == paths.take(j - 1));
    assert(pj.last() == paths[j - 1]);
    if j == i + 1 {
        let prev = reservations(paths.take(i));
        assert(reserve(prev, paths[i])[t] == reserved_at(prev, t).union(set![paths[i][t]]));
    } else {
        lemma_reserved_for_later(paths, i, j - 1, t);
        lemma_reserve_keeps(reservations(paths.take(j - 1)), paths[j - 1], t, paths[i][t]);
    }
}

/// Law: an ant never moves into a room that an earlier ant holds at that turn (other than
/// at the earlier ant's first and last turns, in the start and end rooms).
pub proof fn lemma_moves_avoid_earlier_ants(
    g: Seq<Seq<usize>>,
    start: usize,
    end: usize,
    paths: Seq<Seq<usize>>,
    i: int,
    j: int,
    t: int,
)
    requires
        routed(g, start, end, paths),
        0 <= i < j < paths.len(),
        1 <= t < paths[i].len() - 1,
        t < paths[j].len(),
        paths[j][t] != paths[j][t - 1],
    ensures
        paths[j][t] != paths[i][t],
{
    lemma_reserved_for_later(paths, i, j, t);
    assert(routed_at(g, start, end, paths, j));
    assert(step_ok(g, reservations(paths.take(j)), paths[j], t));
}

/// A schedule under more reservations is a schedule under fewer.
pub proof fn lemma_schedule_fewer_reservations(
    g: Seq<Seq<usize>>,
    start: usize,
    fewer: Seq<Set<usize>>,
    more: Seq<Set<usize>>,
    path: Seq<usize>,
)
    requires
        is_schedule(g, start, more, path),
        forall|t: int, r: usize| blocked(fewer, r, t) ==> #[trigger] blocked(more, r, t),
    ensures
        is_schedule(g, start, fewer, path),
{
    assert forall|t: int| 1 <= t < path.len() implies #[trigger] step_ok(g, fewer, path, t) by {
        assert(step_ok(g, more, path, t));
        assert(blocked(fewer, path[t], t) ==> blocked(more, path[t], t));
    }
}

/// Law: an ant routed later never arrives earlier than the ant routed just before it, so
/// the last ant's arrival is the duration of the whole move.
pub proof fn lemma_arrivals_in_order(
    g: Seq<Seq<usize>>,
    start: usize,
    end: usize,
    paths: Seq<Seq<usize>>,
    k: int,
)
    requires
        routed(g, start, end, paths),
        0 <= k < paths.len() - 1,
    ensures
        paths[k].len() <= paths[k + 1].len(),
{
    let fewer = reservations(paths.take(k));
    let more = reservations(paths.take(k + 1));
    assert(paths.take(k + 1).drop_last() == paths.take(k));
    assert(paths.take(k + 1).last() == paths[k]);
    assert(more == reserve(fewer, paths[k]));
    assert forall|t: int, r: usize| blocked(fewer, r, t) implies #[trigger] blocked(more, r, t) by {
        lemma_reserve_keeps(fewer, paths[k], t, r);
    }
    assert(routed_at(g, start, end, paths, k + 1));
    assert(routed_at(g, start, end, paths, k));
    lemma_schedule_fewer_reservations(g, start, fewer, more, paths[k + 1]);
    assert(arrives(g, start, fewer, end, paths[k + 1]));
}

/// Fewer reservations never make a room unreachable.
pub proof fn lemma_reach_fewer_reservations(
    g: Seq<Seq<usize>>,
    start: usize,
    fewer: Seq<Set<usize>>,
    more: Seq<Set<usize>>,
    t: nat,
)
    requires
        forall|t: int, r: usize| blocked(fewer, r, t) ==> #[trigger] blocked(more, r, t),
    ensures
        reach(g, start, more, t).subset_of(reach(g, start, fewer, t)),
    decreases t,
{
    if t > 0 {
        lemma_reach_fewer_reservations(g, start, fewer, more, (t - 1) as nat);
        let pm = reach(g, start, more, (t - 1) as nat);
        let pf = reach(g, start, fewer, (t - 1) as nat);
        assert forall|r: usize| #[trigger] reach(g, start, more, t).contains(r) implies reach(
            g,
            start,
            fewer,
            t,
        ).contains(r) by {
            if !pm.contains(r) {
                let p = choose|p: usize| #[trigger] pm.contains(p) && edge(g, p, r);
                assert(!blocked(fewer, r, t as int));
                lemma_step_set_contains(g, fewer, pf, t as int, p, r);
            }
        }
    }
}

/// The reservations only grow from one ant to the next.
pub proof fn lemma_reservations_grow(paths: Seq<Seq<usize>>, p: int, q: int)
    requires
        0 <= p <= q <= paths.len(),
    ensures
        forall|t: int, r: usize|
            blocked(reservations(paths.take(p)), r, t) ==> #[trigger] blocked(
                reservations(paths.take(q)),
                r,
                t,
            ),
    decreases q - p,
{
    if p < q {
        lemma_reservations_grow(paths, p, q - 1);
        let prev = reservations(paths.take(q - 1));
        assert(paths.take(q).drop_last() == paths.take(q - 1));
        assert(paths.take(q).last() == paths[q - 1]);
        assert forall|t: int, r: usize|
            blocked(reservations(paths.take(p)), r, t) implies #[trigger] blocked(
            reservations(paths.take(q)),
            r,
            t,
        ) by {
            assert(blocked(prev, r, t));
            lemma_reserve_keeps(prev, paths[q - 1], t, r);
        }
    }
}

/// The first turn of the stay in the room held at turn `t`.
pub proof fn lemma_stay_start(path: Seq<usize>, t: int) -> (a: int)
    requires
        0 <= t < path.len(),
    ensures
        0 <= a <= t,
        forall|m: int| a <= m <= t ==> path[m] == path[t],
        a == 0 || path[a - 1] != path[t],
    decreases t,
{
    if t == 0 || path[t - 1] != path[t] {
        t
    } else {
        lemma_stay_start(path, t - 1)
    }
}

/// Law: two ants are never in the same room at the same turn, except in the start and end
/// rooms.
pub proof fn lemma_rooms_not_shared(
    g: Seq<Seq<usize>>,
    start: usize,
    end: usize,
    paths: Seq<Seq<usize>>,
    i: int,
    j: int,
    t: int,
)
    requires
        routed(g, start, end, paths),
        0 <= i < paths.len(),
        0 <= j < paths.len(),
        i != j,
        0 <= t,
        t < paths[i].len(),
        t < paths[j].len(),
        paths[i][t] == paths[j][t],
    ensures
        paths[i][t] == start || paths[i][t] == end,
{
    let r = paths[i][t];
    if r != start && r != end {
        let p = if i < j {
            i
        } else {
            j
        };
        let q = if i < j {
            j
        } else {
            i
        };
        let up = reservations(paths.take(p));
        let uq = reservations(paths.take(q));
        assert(routed_at(g, start, end, paths, p));
        assert(routed_at(g, start, end, paths, q));
        let pp = paths[p];
        let pq = paths[q];
        let ap = lemma_stay_start(pp, t);
        let aq = lemma_stay_start(pq, t);
        assert(ap >= 1);
        assert(aq >= 1);
        assert(entered_first(g, start, up, pp, ap));
        assert(step_ok(g, uq, pq, aq));
        assert(!blocked(uq, r, aq));
        lemma_schedule_in_reach(g, start, uq, pq, aq);
        lemma_reservations_grow(paths, p, q);
        lemma_reach_fewer_reservations(g, start, up, uq, aq as nat);
        if aq < ap {
            lemma_reach_mono(g, start, up, aq as nat, (ap - 1) as nat);
        }
        assert(pp[aq] == r);
        assert(t < pp.len() - 1);
        lemma_reserved_for_later(paths, p, q, aq);
    }
}

/// Two earliest arrivals under the same reservations take the same number of turns.
proof fn lemma_earliest_same_len(
    g: Seq<Seq<usize>>,
    start: usize,
    used: Seq<Set<usize>>,
    end: usize,
    a: Seq<usize>,
    b: Seq<usize>,
)
    requires
        earliest_arrival(g, start, used, end, a),
        earliest_arrival(g, start, used, end, b),
    ensures
        a.len() == b.len(),
{
    assert(arrives(g, start, used, end, a));
    assert(arrives(g, start, used, end, b));
}

proof fn lemma_routing_prefix_upto(
    g: Seq<Seq<usize>>,
    start: usize,
    end: usize,
    p: Seq<Seq<usize>>,
    q: Seq<Seq<usize>>,
    k: int,
)
    requires
        routed(g, start, end, p),
        routed(g, start, end, q),
        p.len() <= q.len(),
        0 <= k <= p.len(),
    ensures
        p.take(k) == q.take(k),
    decreases k,
{
    if k == 0 {
        assert(p.take(0) =~= q.take(0));
    } else {
        lemma_routing_prefix_upto(g, start, end, p, q, k - 1);
        assert(routed_at(g, start, end, p, k - 1));
        assert(routed_at(g, start, end, q, k - 1));
        let used = reservations(p.take(k - 1));
        lemma_earliest_same_len(g, start, used, end, p[k - 1], q[k - 1]);
        assert(p[k - 1] == q[k - 1]);
        assert(p.take(k) =~= p.take(k - 1).push(p[k - 1]));
        assert(q.take(k) =~= q.take(k - 1).push(q[k - 1]));
    }
}

/// Law: the routing is decided ant by ant, so of two routings of the same farm (for
/// instance with different numbers of ants) the shorter is the beginning of the longer:
/// the first schedules do not depend on how many ants follow.
pub proof fn lemma_routing_prefix(
    g: Seq<Seq<usize>>,
    start: usize,
    end: usize,
    p: Seq<Seq<usize>>,
    q: Seq<Seq<usize>>,
)
    requires
        routed(g, start, end, p),
        routed(g, start, end, q),
        p.len() <= q.len(),
    ensures
        p == q.take(p.len() as int),
{
    lemma_routing_prefix_upto(g, start, end, p, q, p.len() as int);
    assert(p.take(p.len() as int) =~= p);
}

/// A way to move ants from `start` to `end` with no reservations: every ant follows a
/// schedule (each turn it waits or moves through a tube) that ends in `end`, and no room
/// other than `start` and `end` holds two ants at the same turn.
pub open spec fn valid_routing(g: Seq<Seq<usize>>, start: usize, end: usize, paths: Seq<Seq<usize>>) -> bool {
    &&& forall|a: int|
        0 <= a < paths.len() ==> #[trigger] arrives(g, start, Seq::<Set<usize>>::empty(), end, paths[a])
    &&& forall|a: int, b: int, t: int|
        #![trigger paths[a][t], paths[b][t]]
        0 <= a < paths.len() && 0 <= b < paths.len() && a != b && 0 <= t < paths[a].len() && t
            < paths[b].len() && paths[a][t] == paths[b][t] ==> paths[a][t] == start || paths[a][t]
            == end
}

/// Law: the routed schedules move the ants from `start` to `end` without two ants ever
/// sharing a room other than those two.
pub proof fn lemma_routing_is_valid(g: Seq<Seq<usize>>, start: usize, end: usize, paths: Seq<Seq<usize>>)
    requires
        routed(g, start, end, paths),
    ensures
        valid_routing(g, start, end, paths),
{
    let none = Seq::<Set<usize>>::empty();
    assert forall|a: int| 0 <= a < paths.len() implies #[trigger] arrives(g, start, none, end, paths[a]) by {
        assert(routed_at(g, start, end, paths, a));
        lemma_schedule_fewer_reservations(g, start, none, reservations(paths.take(a)), paths[a]);
    }
    assert forall|a: int, b: int, t: int|
        0 <= a < paths.len() && 0 <= b < paths.len() && a != b && 0 <= t < paths[a].len() && t
            < paths[b].len() && paths[a][t] == paths[b][t] implies paths[a][t] == start
        || paths[a][t] == end by {
        lemma_rooms_not_shared(g, start, end, paths, a, b, t);
    }
}

/// Law: in no way of moving ants does any ant reach the end room in fewer turns than the
/// first routed ant; with a single ant, the routing is the quickest there is.
pub proof fn lemma_first_ant_quickest(
    g: Seq<Seq<usize>>,
    start: usize,
    end: usize,
    paths: Seq<Seq<usize>>,
    other: Seq<Seq<usize>>,
    a: int,
)
    requires
        routed(g, start, end, paths),
        paths.len() >= 1,
        valid_routing(g, start, end, other),
        0 <= a < other.len(),
    ensures
        paths[0].len() <= other[a].len(),
{
    assert(routed_at(g, start, end, paths, 0));
    assert(paths.take(0) =~= Seq::<Seq<usize>>::empty());
    assert(reservations(paths.take(0)) == Seq::<Set<usize>>::empty());
    assert(arrives(g, start, Seq::<Set<usize>>::empty(), end, other[a]));
}

/// Once an ant of `paths` is in room `end`, it is there at every later turn of its schedule.
pub open spec fn stays_arrived(end: usize, paths: Seq<Seq<usize>>) -> bool {
    forall|a: int, t1: int, t2: int|
        #![trigger paths[a][t1], paths[a][t2]]
        0 <= a < paths.len() && 0 <= t1 <= t2 < paths[a].len() && paths[a][t1] == end ==> paths[a][t2]
            == end
}

/// Law: an ant routed one after another never leaves the end room once it is there.
pub proof fn lemma_routed_ants_stay(g: Seq<Seq<usize>>, start: usize, end: usize, paths: Seq<Seq<usize>>)
    requires
        routed(g, start, end, paths),
    ensures
        stays_arrived(end, paths),
{
    assert forall|a: int, t1: int, t2: int|
        #![trigger paths[a][t1], paths[a][t2]]
        0 <= a < paths.len() && 0 <= t1 <= t2 < paths[a].len() && paths[a][t1] == end implies paths[a][t2]
        == end by {
        assert(routed_at(g, start, end, paths, a));
        let last = paths[a].len() - 1;
        assert(paths[a].last() == end);
        assert(stays_between(paths[a], t1, t2, last));
    }
}

} // verus!
