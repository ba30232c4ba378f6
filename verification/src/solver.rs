//! Routing the ants: a breadth-first search in time that respects the rooms reserved by
//! the ants routed before, and the bookkeeping of those reservations.
use vstd::prelude::*;
use std::collections::HashSet;
use std::collections::VecDeque;
use crate::map::Farm;
use crate::schedule::{
    arrival, arrives, blocked, connected, earliest_arrival, edge, entered_first, expand_layer,
    first_visits, graph_bounded, initial_tree, is_schedule, lemma_closed_contains_free, lemma_reach_bounded,
    lemma_reach_mono, lemma_schedule_in_reach, lemma_step_set_contains, lemma_time_bound,
    occupant, reach, reservations, reserve, reserve_upto, routed, routed_at, search_state,
    stays_between, step_ok, step_set, tree_schedule, visit_tubes, Tree,
};

verus! {

broadcast use vstd::std_specs::hash::group_hash_axioms;

/// The room of an ant at each turn, turn 0 first.
pub type Path = Vec<usize>;

/// The rooms reserved at each turn, as sets.
pub open spec fn used_view(used: Seq<HashSet<usize>>) -> Seq<Set<usize>> {
    used.map_values(|h: HashSet<usize>| h@)
}

/// The search tree: `par[r]` is `Some((p, t))` when room `r` was first entered at turn `t`
/// from room `p`, through a tube and into a room free at that turn; `start` is entered at
/// turn 0 from itself.
pub open spec fn parents_wf(
    par: Seq<Option<(usize, usize)>>,
    g: Seq<Seq<usize>>,
    start: usize,
    used: Seq<Set<usize>>,
) -> bool {
    &&& start < par.len()
    &&& par[start as int] == Some((start, 0usize))
    &&& forall|r: int|
        0 <= r < par.len() && r != start && #[trigger] par[r] is Some ==> {
            let (p, t) = par[r].unwrap();
            &&& p < par.len()
            &&& par[p as int] is Some
            &&& par[p as int].unwrap().1 < t
            &&& edge(g, p, r as usize)
            &&& !blocked(used, r as usize, t as int)
            &&& !reach(g, start, used, (t - 1) as nat).contains(r as usize)
        }
}

/// Every entry of `a` is kept in `b`.
pub open spec fn tree_extends(a: Tree, b: Tree) -> bool {
    &&& a.len() == b.len()
    &&& forall|r: int| 0 <= r < a.len() && #[trigger] a[r] is Some ==> b[r] == a[r]
}

proof fn lemma_tree_extends_trans(a: Tree, b: Tree, c: Tree)
    requires
        tree_extends(a, b),
        tree_extends(b, c),
    ensures
        tree_extends(a, c),
{
    assert forall|r: int| 0 <= r < a.len() && #[trigger] a[r] is Some implies c[r] == a[r] by {
        assert(b[r] == a[r]);
    }
}

proof fn lemma_visit_tubes_extends(
    g: Seq<Seq<usize>>,
    used: Seq<Set<usize>>,
    t: int,
    p: usize,
    tree: Tree,
    queued: Seq<usize>,
    j1: int,
    j2: int,
)
    requires
        0 <= j1 <= j2 <= g[p as int].len(),
        forall|i: int| 0 <= i < g[p as int].len() ==> #[trigger] g[p as int][i] < tree.len(),
    ensures
        tree_extends(
            visit_tubes(g, used, t, p, tree, queued, j1).0,
            visit_tubes(g, used, t, p, tree, queued, j2).0,
        ),
    decreases j2,
{
    let a = visit_tubes(g, used, t, p, tree, queued, j1).0;
    if j1 == j2 {
        assert(tree_extends(a, a));
    } else {
        lemma_visit_tubes_extends(g, used, t, p, tree, queued, j1, j2 - 1);
        lemma_visit_tubes_len(g, used, t, p, tree, queued, j2 - 1);
        let b = visit_tubes(g, used, t, p, tree, queued, j2 - 1).0;
        let c = visit_tubes(g, used, t, p, tree, queued, j2).0;
        assert(g[p as int][j2 - 1] < tree.len());
        assert(tree_extends(b, c));
        lemma_tree_extends_trans(a, b, c);
    }
}

proof fn lemma_visit_tubes_len(
    g: Seq<Seq<usize>>,
    used: Seq<Set<usize>>,
    t: int,
    p: usize,
    tree: Tree,
    queued: Seq<usize>,
    j: int,
)
    requires
        j <= g[p as int].len(),
        forall|i: int| 0 <= i < g[p as int].len() ==> #[trigger] g[p as int][i] < tree.len(),
    ensures
        visit_tubes(g, used, t, p, tree, queued, j).0.len() == tree.len(),
    decreases j,
{
    if j > 0 {
        lemma_visit_tubes_len(g, used, t, p, tree, queued, j - 1);
        assert(g[p as int][j - 1] < tree.len());
    }
}

proof fn lemma_expand_layer_extends(
    g: Seq<Seq<usize>>,
    used: Seq<Set<usize>>,
    t: int,
    layer: Seq<usize>,
    tree: Tree,
    k1: int,
    k2: int,
)
    requires
        0 <= k1 <= k2 <= layer.len(),
        graph_bounded(g, tree.len()),
        forall|i: int| 0 <= i < layer.len() ==> #[trigger] layer[i] < tree.len(),
    ensures
        tree_extends(
            expand_layer(g, used, t, layer, tree, k1).0,
            expand_layer(g, used, t, layer, tree, k2).0,
        ),
        expand_layer(g, used, t, layer, tree, k2).0.len() == tree.len(),
    decreases k2,
{
    let a = expand_layer(g, used, t, layer, tree, k1).0;
    if k2 == 0 {
        assert(tree_extends(a, a));
    } else {
        lemma_expand_layer_extends(g, used, t, layer, tree, if k1 == k2 { k1 - 1 } else { k1 }, k2 - 1);
        let (tr, q) = expand_layer(g, used, t, layer, tree, k2 - 1);
        let p = layer[k2 - 1];
        assert forall|i: int| 0 <= i < g[p as int].len() implies #[trigger] g[p as int][i] < tr.len() by {
            assert(g[p as int][i] < tree.len());
        }
        lemma_visit_tubes_extends(g, used, t, p, tr, q, 0, g[p as int].len() as int);
        lemma_visit_tubes_len(g, used, t, p, tr, q, g[p as int].len() as int);
        let c = expand_layer(g, used, t, layer, tree, k2).0;
        if k1 == k2 {
            assert(tree_extends(a, a));
        } else {
            lemma_tree_extends_trans(a, tr, c);
        }
    }
}

/// Two trees that agree on the way to `r` give `r` the same schedule.
proof fn lemma_occupant_agrees(a: Tree, b: Tree, start: usize, g: Seq<Seq<usize>>, used: Seq<Set<usize>>, r: usize, k: int)
    requires
        parents_wf(a, g, start, used),
        tree_extends(a, b),
        r < a.len(),
        a[r as int] is Some,
    ensures
        occupant(a, r, k) == occupant(b, r, k),
        arrival(a, r) == arrival(b, r),
    decreases arrival(a, r),
{
    if k < arrival(a, r) && r != start {
        let p = a[r as int].unwrap().0;
        lemma_occupant_agrees(a, b, start, g, used, p, k);
    }
}

/// The ant holds `path[t]` since the turn that room entered the search tree.
pub open spec fn block_ok(par: Seq<Option<(usize, usize)>>, path: Seq<usize>, t: int) -> bool {
    &&& path[t] < par.len()
    &&& par[path[t] as int] is Some
    &&& par[path[t] as int].unwrap().1 <= t
    &&& forall|m: int| par[path[t] as int].unwrap().1 <= m <= t ==> path[m] == path[t]
}

/// Room `r`, held at turn `t`, leads back to `start` through `par`: either it is `start`,
/// or `par[r] == Some((p, e))` with `1 <= e <= t` (it was entered at turn `e` from `p`)
/// and `p`, held at turn `e - 1`, leads back in turn.
pub open spec fn leads_back(par: Tree, start: usize, r: usize, t: int) -> bool
    decreases t,
{
    if r == start {
        true
    } else if r < par.len() && par[r as int] is Some && 1 <= par[r as int].unwrap().1 <= t {
        leads_back(par, start, par[r as int].unwrap().0, par[r as int].unwrap().1 - 1)
    } else {
        false
    }
}

/// The rooms held at turns `0 ..= t` by an ant that holds `r` at turn `t` and came along the
/// chain of [`leads_back`]: every room of the chain from the turn it was entered until the
/// next one is entered, and `start` before all of them.
pub open spec fn walk_back(par: Tree, start: usize, r: usize, t: int) -> Seq<usize>
    decreases t,
{
    if r != start && r < par.len() && par[r as int] is Some && 1 <= par[r as int].unwrap().1 <= t {
        let e = par[r as int].unwrap().1 as int;
        walk_back(par, start, par[r as int].unwrap().0, e - 1) + Seq::new(
            (t - e + 1) as nat,
            |i: int| r,
        )
    } else {
        Seq::new((t + 1) as nat, |i: int| r)
    }
}

/// The schedule that [`reconstruct_path`] reads off `par` for the ant that ends in `end`.
pub open spec fn chain_schedule(par: Tree, start: usize, end: usize) -> Seq<usize> {
    if end == start {
        seq![end]
    } else {
        walk_back(par, start, end, arrival(par, end) as int)
    }
}

proof fn lemma_walk_len(par: Tree, start: usize, r: usize, t: int)
    requires
        t >= -1,
    ensures
        walk_back(par, start, r, t).len() == t + 1,
    decreases t,
{
    if r != start && r < par.len() && par[r as int] is Some && 1 <= par[r as int].unwrap().1 <= t {
        lemma_walk_len(par, start, par[r as int].unwrap().0, par[r as int].unwrap().1 - 1);
    }
}

/// In a well-formed search tree every entered room leads back to `start`, and the walk back
/// is the tree's schedule: a schedule that holds each room from the turn it entered the tree.
proof fn lemma_walk_tree(
    par: Tree,
    g: Seq<Seq<usize>>,
    start: usize,
    used: Seq<Set<usize>>,
    r: usize,
    t: int,
)
    requires
        parents_wf(par, g, start, used),
        r < par.len(),
        par[r as int] is Some,
        arrival(par, r) <= t,
    ensures
        leads_back(par, start, r, t),
        walk_back(par, start, r, t).len() == t + 1,
        forall|k: int| 0 <= k <= t ==> #[trigger] walk_back(par, start, r, t)[k] == occupant(par, r, k),
        is_schedule(g, start, used, walk_back(par, start, r, t)),
        forall|k: int| 0 <= k <= t ==> #[trigger] block_ok(par, walk_back(par, start, r, t), k),
    decreases t,
{
    let w = walk_back(par, start, r, t);
    lemma_walk_len(par, start, r, t);
    if r == start {
        assert forall|k: int| 0 <= k <= t implies #[trigger] w[k] == occupant(par, r, k) by {}
        assert forall|k: int| 1 <= k < w.len() implies #[trigger] step_ok(g, used, w, k) by {}
        assert forall|k: int| 0 <= k <= t implies #[trigger] block_ok(par, w, k) by {
            assert forall|m: int| par[w[k] as int].unwrap().1 <= m <= k implies w[m] == w[k] by {}
        }
    } else {
        let p = par[r as int].unwrap().0;
        let e = par[r as int].unwrap().1 as int;
        assert(par[r as int] is Some);
        assert(p < par.len() && par[p as int] is Some && par[p as int].unwrap().1 < e);
        assert(edge(g, p, r) && !blocked(used, r, e));
        lemma_walk_tree(par, g, start, used, p, e - 1);
        let a = walk_back(par, start, p, e - 1);
        assert(w == a + Seq::new((t - e + 1) as nat, |i: int| r));
        assert forall|k: int| 0 <= k <= t implies #[trigger] w[k] == occupant(par, r, k) by {
            if k < e {
                assert(w[k] == a[k]);
                assert(a[k] == occupant(par, p, k));
            }
        }
        assert(a[e - 1] == occupant(par, p, e - 1));
        assert(w[e - 1] == p);
        assert forall|k: int| 1 <= k < w.len() implies #[trigger] step_ok(g, used, w, k) by {
            if k < e {
                assert(step_ok(g, used, a, k));
                assert(w[k] == a[k] && w[k - 1] == a[k - 1]);
            }
        }
        assert(w[0] == a[0]);
        assert forall|k: int| 0 <= k <= t implies #[trigger] block_ok(par, w, k) by {
            if k < e {
                assert(block_ok(par, a, k));
                assert(w[k] == a[k]);
                assert forall|m: int| par[w[k] as int].unwrap().1 <= m <= k implies w[m] == w[k] by {
                    assert(w[m] == a[m]);
                }
            } else {
                assert(w[k] == r);
                assert forall|m: int| par[w[k] as int].unwrap().1 <= m <= k implies w[m] == w[k] by {}
            }
        }
    }
}

/// Reads the schedule of an ant off a table of parents: `parents[r] == Some((p, e))` says
/// that room `r` was entered at turn `e` from room `p`.  Walking back from `end` to `start`,
/// each room is held from the turn it was entered until the next room is entered, and
/// `start` before that.  When `end` is `start` the schedule is that room alone.
pub fn reconstruct_path(parents: &[Option<(usize, usize)>], start: usize, end: usize) -> (path: Path)
    requires
        end == start || leads_back(parents@, start, end, arrival(parents@, end) as int),
        end == start || arrival(parents@, end) < usize::MAX,
    ensures
        path@ == chain_schedule(parents@, start, end),
{
    if end == start {
        let path = vec![end];
        assert(path@ =~= seq![end]);
        return path;
    }
    let (first_prev, end_time) = parents[end].unwrap();
    let ghost par = parents@;
    let ghost w = walk_back(par, start, end, end_time as int);
    let len = end_time + 1;
    let mut path: Path = Vec::new();
    while path.len() < len
        invariant
            path.len() <= len,
            forall|k: int| 0 <= k < path.len() ==> path@[k] == end,
        decreases len - path.len(),
    {
        path.push(end);
    }
    proof {
        lemma_walk_len(par, start, end, end_time as int);
        lemma_walk_len(par, start, first_prev, end_time - 1);
        assert(w == walk_back(par, start, first_prev, end_time - 1) + Seq::new(1, |i: int| end));
    }
    let mut hi = end_time;
    let mut cur = first_prev;
    while cur != start
        invariant
            par == parents@,
            path.len() == len,
            len == end_time + 1,
            1 <= hi <= end_time,
            w.len() == len,
            leads_back(par, start, cur, hi - 1),
            walk_back(par, start, cur, hi - 1).len() == hi,
            forall|k: int| hi <= k < len ==> #[trigger] path@[k] == w[k],
            forall|k: int| 0 <= k < hi ==> #[trigger] w[k] == walk_back(par, start, cur, hi - 1)[k],
        decreases hi,
    {
        let (prev, lo) = parents[cur].unwrap();
        let ghost before = walk_back(par, start, cur, hi - 1);
        proof {
            lemma_walk_len(par, start, prev, lo - 1);
            assert(before == walk_back(par, start, prev, lo - 1) + Seq::new(
                (hi - lo) as nat,
                |i: int| cur,
            ));
        }
        let mut k = lo;
        while k < hi
            invariant
                lo <= k <= hi,
                hi < len,
                path.len() == len,
                forall|i: int| lo <= i < k ==> path@[i] == cur,
                forall|i: int| hi <= i < len ==> #[trigger] path@[i] == w[i],
            decreases hi - k,
        {
            path.set(k, cur);
            k += 1;
        }
        proof {
            assert forall|i: int| lo <= i < len implies #[trigger] path@[i] == w[i] by {
                if i < hi {
                    assert(w[i] == before[i]);
                }
            }
            assert forall|i: int| 0 <= i < lo implies #[trigger] w[i] == walk_back(
                par,
                start,
                prev,
                lo - 1,
            )[i] by {
                assert(w[i] == before[i]);
            }
        }
        hi = lo;
        cur = prev;
    }
    let mut k: usize = 0;
    while k < hi
        invariant
            k <= hi,
            hi < len,
            path.len() == len,
            forall|i: int| 0 <= i < k ==> path@[i] == start,
            forall|i: int| hi <= i < len ==> #[trigger] path@[i] == w[i],
        decreases hi - k,
    {
        path.set(k, start);
        k += 1;
    }
    proof {
        assert forall|i: int| 0 <= i < len implies #[trigger] path@[i] == w[i] by {
            if i < hi {
                assert(w[i] == walk_back(par, start, cur, hi - 1)[i]);
            }
        }
        assert(path@ =~= w);
    }
    path
}

/// Room `r` is queued for turn `t`.
pub open spec fn queued(q: Seq<(usize, usize)>, r: usize, t: int) -> bool {
    exists|k: int| 0 <= k < q.len() && (#[trigger] q[k]).0 == r && q[k].1 == t
}

/// The queue holds discovered rooms, the first `left` entries for turn `cur` and the others
/// for turn `cur + 1int`, and no entry is older than the discovery of its room.
pub open spec fn queue_shape(
    q: Seq<(usize, usize)>,
    par: Seq<Option<(usize, usize)>>,
    cur: nat,
    left: nat,
) -> bool {
    &&& left <= q.len()
    &&& forall|k: int|
        0 <= k < q.len() ==> {
            &&& (#[trigger] q[k]).0 < par.len()
            &&& par[q[k].0 as int] is Some
            &&& par[q[k].0 as int].unwrap().1 <= q[k].1
            &&& q[k].1 == (if k < left {
                cur as int
            } else {
                cur + 1int
            })
        }
}

proof fn lemma_pop_queued(q: Seq<(usize, usize)>, r: usize, t: int)
    requires
        q.len() > 0,
        queued(q, r, t),
        !(q[0].0 == r && q[0].1 == t),
    ensures
        queued(q.subrange(1, q.len() as int), r, t),
{
    let k = choose|k: int| 0 <= k < q.len() && (#[trigger] q[k]).0 == r && q[k].1 == t;
    assert(q.subrange(1, q.len() as int)[k - 1] == q[k]);
}

proof fn lemma_push_queued(q: Seq<(usize, usize)>, e: (usize, usize), r: usize, t: int)
    requires
        queued(q, r, t) || (e.0 == r && e.1 == t),
    ensures
        queued(q.push(e), r, t),
{
    if e.0 == r && e.1 == t {
        assert(q.push(e)[q.len() as int] == e);
    } else {
        let k = choose|k: int| 0 <= k < q.len() && (#[trigger] q[k]).0 == r && q[k].1 == t;
        assert(q.push(e)[k] == q[k]);
    }
}

/// The state of the search while it expands the rooms of turn `cur`:
/// - the search tree is well formed and `end` is not in it;
/// - every room reachable at turn `cur` is in the tree;
/// - every neighbour of an expanded room (`done`) that is free at `cur + 1int` is in the tree;
/// - every room reachable at `cur` is held (expanded or being expanded) or queued for `cur`;
/// - every room of the tree is held or queued, and every expanded room is queued for `cur + 1int`.
#[verifier::opaque]
pub open spec fn search_inv(
    g: Seq<Seq<usize>>,
    start: usize,
    end: usize,
    used: Seq<Set<usize>>,
    n: nat,
    par: Seq<Option<(usize, usize)>>,
    q: Seq<(usize, usize)>,
    cur: nat,
    left: nat,
    done: Set<usize>,
    held: Set<usize>,
) -> bool {
    &&& par.len() == n
    &&& parents_wf(par, g, start, used)
    &&& par[end as int] is None
    &&& queue_shape(q, par, cur, left)
    &&& forall|r: usize| #[trigger]
        reach(g, start, used, cur).contains(r) ==> r < n && par[r as int] is Some
    &&& forall|p: usize, j: int|
        #![trigger done.contains(p), g[p as int][j]]
        done.contains(p) && 0 <= j < g[p as int].len() && !blocked(used, g[p as int][j], cur + 1int)
            ==> par[g[p as int][j] as int] is Some
    &&& forall|r: usize| #[trigger]
        reach(g, start, used, cur).contains(r) ==> held.contains(r) || queued(q, r, cur as int)
    &&& forall|r: usize|
        r < n && #[trigger] par[r as int] is Some ==> held.contains(r) || queued(q, r, cur as int)
            || queued(q, r, cur + 1int)
    &&& forall|p: usize| #[trigger] done.contains(p) ==> p < n && queued(q, p, cur + 1int)
    &&& forall|p: usize| #[trigger] held.contains(p) ==> done.contains(p) || par[p as int] is Some
}

proof fn lemma_search_init(
    g: Seq<Seq<usize>>,
    start: usize,
    end: usize,
    used: Seq<Set<usize>>,
    n: nat,
    par: Seq<Option<(usize, usize)>>,
    q: Seq<(usize, usize)>,
)
    requires
        start < n,
        start != end,
        end < n,
        par.len() == n,
        par[start as int] == Some((start, 0usize)),
        forall|i: int| 0 <= i < n && i != start ==> par[i] is None,
        q == seq![(start, 0usize)],
    ensures
        search_inv(g, start, end, used, n, par, q, 0, 1, Set::empty(), Set::empty()),
{
    reveal(search_inv);
    assert(q[0] == (start, 0usize));
    assert(queued(q, start, 0));
    assert(reach(g, start, used, 0) == set![start]);
}

/// Taking the first entry of the queue, a room of turn `cur`.
proof fn lemma_search_pop(
    g: Seq<Seq<usize>>,
    start: usize,
    end: usize,
    used: Seq<Set<usize>>,
    n: nat,
    par: Seq<Option<(usize, usize)>>,
    q: Seq<(usize, usize)>,
    cur: nat,
    left: nat,
    done: Set<usize>,
)
    requires
        search_inv(g, start, end, used, n, par, q, cur, left, done, done),
        left > 0,
    ensures
        q.len() > 0,
        q[0].1 == cur,
        q[0].0 < n,
        par[q[0].0 as int] is Some,
        par[q[0].0 as int].unwrap().1 <= cur,
        search_inv(
            g,
            start,
            end,
            used,
            n,
            par,
            q.subrange(1, q.len() as int),
            cur,
            (left - 1) as nat,
            done,
            done.insert(q[0].0),
        ),
{
    reveal(search_inv);
    assert(q[0].1 == cur);
    let room = q[0].0;
    let q1 = q.subrange(1, q.len() as int);
    assert forall|k: int| 0 <= k < q1.len() implies #[trigger] q1[k] == q[k + 1] by {}
    assert forall|r: usize| #[trigger]
        reach(g, start, used, cur).contains(r) implies done.insert(room).contains(r) || queued(
        q1,
        r,
        cur as int,
    ) by {
        if !done.contains(r) && r != room {
            lemma_pop_queued(q, r, cur as int);
        }
    }
    assert forall|r: usize| r < n && #[trigger] par[r as int] is Some implies done.insert(
        room,
    ).contains(r) || queued(q1, r, cur as int) || queued(q1, r, cur + 1int) by {
        if !done.contains(r) && r != room {
            if queued(q, r, cur as int) {
                lemma_pop_queued(q, r, cur as int);
            } else {
                lemma_pop_queued(q, r, cur + 1int);
            }
        }
    }
    assert forall|p: usize| #[trigger] done.contains(p) implies p < n && queued(q1, p, cur + 1int) by {
        lemma_pop_queued(q, p, cur + 1int);
    }
}

/// All rooms of turn `cur` are expanded: the queue now holds exactly the rooms of turn
/// `cur + 1int`.
proof fn lemma_search_next_turn(
    g: Seq<Seq<usize>>,
    start: usize,
    end: usize,
    used: Seq<Set<usize>>,
    n: nat,
    par: Seq<Option<(usize, usize)>>,
    q: Seq<(usize, usize)>,
    cur: nat,
    done: Set<usize>,
)
    requires
        search_inv(g, start, end, used, n, par, q, cur, 0, done, done),
        graph_bounded(g, n),
        start < n,
        n <= usize::MAX,
        connected(g, start, end),
    ensures
        search_inv(g, start, end, used, n, par, q, (cur + 1) as nat, q.len(), Set::empty(), Set::empty()),
        cur + 1int < used.len() + n,
{
    reveal(search_inv);
    let next = (cur + 1) as nat;
    let prev = reach(g, start, used, cur);
    assert forall|r: usize| #[trigger] reach(g, start, used, next).contains(r) implies r < n
        && par[r as int] is Some by {
        if !prev.contains(r) {
            let p = choose|p: usize| #[trigger] prev.contains(p) && edge(g, p, r);
            if queued(q, p, cur as int) {
                let k = choose|k: int| 0 <= k < q.len() && (#[trigger] q[k]).0 == p && q[k].1 == cur;
                assert(q[k].1 == cur + 1int);
            }
            let j = choose|j: int| 0 <= j < g[p as int].len() && g[p as int][j] == r;
            assert(done.contains(p));
            assert(step_set(g, used, prev, next as int).contains(r));
            assert(!blocked(used, g[p as int][j], cur + 1int));
        }
    }
    assert forall|r: usize| r < n && #[trigger] par[r as int] is Some implies queued(
        q,
        r,
        next as int,
    ) by {
        if queued(q, r, cur as int) {
            let k = choose|k: int| 0 <= k < q.len() && (#[trigger] q[k]).0 == r && q[k].1 == cur;
            assert(q[k].1 == cur + 1int);
        }
    }
    assert forall|r: usize| #[trigger] reach(g, start, used, next).contains(r) implies queued(
        q,
        r,
        next as int,
    ) by {
        assert(par[r as int] is Some);
    }
    lemma_time_bound(g, start, used, end, n, next);
}

/// Entering the free, undiscovered room `nb` at turn `cur + 1int` from `room`.
proof fn lemma_search_discover(
    g: Seq<Seq<usize>>,
    start: usize,
    end: usize,
    used: Seq<Set<usize>>,
    n: nat,
    par: Seq<Option<(usize, usize)>>,
    q: Seq<(usize, usize)>,
    cur: nat,
    left: nat,
    done: Set<usize>,
    room: usize,
    nb: usize,
)
    requires
        search_inv(g, start, end, used, n, par, q, cur, left, done, done.insert(room)),
        graph_bounded(g, n),
        end < n,
        room < n,
        nb < n,
        nb != end,
        cur + 1int <= usize::MAX,
        par[room as int] is Some,
        par[room as int].unwrap().1 <= cur,
        par[nb as int] is None,
        edge(g, room, nb),
        !blocked(used, nb, cur + 1int),
    ensures
        search_inv(
            g,
            start,
            end,
            used,
            n,
            par.update(nb as int, Some((room, (cur + 1) as usize))),
            q.push((nb, (cur + 1) as usize)),
            cur,
            left,
            done,
            done.insert(room),
        ),
{
    reveal(search_inv);
    let e = (nb, (cur + 1) as usize);
    let par1 = par.update(nb as int, Some((room, (cur + 1) as usize)));
    let q1 = q.push(e);
    assert(nb != start);
    assert forall|r: int| 0 <= r < par1.len() && r != start && #[trigger] par1[r] is Some implies {
        let (p, t) = par1[r].unwrap();
        &&& p < par1.len()
        &&& par1[p as int] is Some
        &&& par1[p as int].unwrap().1 < t
        &&& edge(g, p, r as usize)
        &&& !blocked(used, r as usize, t as int)
        &&& !reach(g, start, used, (t - 1) as nat).contains(r as usize)
    } by {
        if r != nb {
            assert(par[r] is Some);
        }
    }
    assert forall|k: int| 0 <= k < q.len() implies #[trigger] q1[k] == q[k] by {}
    assert(q1[q.len() as int] == e);
    assert forall|k: int| 0 <= k < q1.len() implies {
        &&& (#[trigger] q1[k]).0 < par1.len()
        &&& par1[q1[k].0 as int] is Some
        &&& par1[q1[k].0 as int].unwrap().1 <= q1[k].1
        &&& q1[k].1 == (if k < left {
            cur as int
        } else {
            cur + 1int
        })
    } by {
        if k < q.len() {
            assert(q1[k] == q[k]);
        }
    }
    assert forall|r: usize| #[trigger] reach(g, start, used, cur).contains(r) implies done.insert(
        room,
    ).contains(r) || queued(q1, r, cur as int) by {
        if queued(q, r, cur as int) {
            lemma_push_queued(q, e, r, cur as int);
        }
    }
    assert forall|r: usize| r < n && #[trigger] par1[r as int] is Some implies done.insert(
        room,
    ).contains(r) || queued(q1, r, cur as int) || queued(q1, r, cur + 1int) by {
        if r == nb {
            lemma_push_queued(q, e, r, cur + 1int);
        } else {
            assert(par[r as int] is Some);
            if queued(q, r, cur as int) {
                lemma_push_queued(q, e, r, cur as int);
            } else if queued(q, r, cur + 1int) {
                lemma_push_queued(q, e, r, cur + 1int);
            }
        }
    }
    assert forall|p: usize| #[trigger] done.contains(p) implies p < n && queued(q1, p, cur + 1int) by {
        lemma_push_queued(q, e, p, cur + 1int);
    }
    assert forall|p: usize| #[trigger] done.insert(room).contains(p) implies done.contains(p)
        || par1[p as int] is Some by {
        if !done.contains(p) {
            assert(p == room);
        }
    }
    assert forall|r: usize| #[trigger] reach(g, start, used, cur).contains(r) implies r < n
        && par1[r as int] is Some by {
        assert(par[r as int] is Some);
    }
    assert forall|p: usize, j: int|
        #![trigger done.contains(p), g[p as int][j]]
        done.contains(p) && 0 <= j < g[p as int].len() && !blocked(used, g[p as int][j], cur + 1int)
            implies par1[g[p as int][j] as int] is Some by {
        assert(p < n);
        assert(g[p as int][j] < n);
        assert(par[g[p as int][j] as int] is Some);
    }
    assert(par1[end as int] is None);
    assert(par1.len() == n);
}

/// All neighbours of `room` are entered or reserved: it waits in place for turn `cur + 1int`.
proof fn lemma_search_requeue(
    g: Seq<Seq<usize>>,
    start: usize,
    end: usize,
    used: Seq<Set<usize>>,
    n: nat,
    par: Seq<Option<(usize, usize)>>,
    q: Seq<(usize, usize)>,
    cur: nat,
    left: nat,
    done: Set<usize>,
    room: usize,
)
    requires
        search_inv(g, start, end, used, n, par, q, cur, left, done, done.insert(room)),
        room < n,
        cur + 1int <= usize::MAX,
        par[room as int] is Some,
        par[room as int].unwrap().1 <= cur,
        forall|j: int|
            0 <= j < g[room as int].len() && !blocked(used, #[trigger] g[room as int][j], cur + 1int)
                ==> par[g[room as int][j] as int] is Some,
    ensures
        search_inv(
            g,
            start,
            end,
            used,
            n,
            par,
            q.push((room, (cur + 1) as usize)),
            cur,
            left,
            done.insert(room),
            done.insert(room),
        ),
{
    reveal(search_inv);
    let e = (room, (cur + 1) as usize);
    let q1 = q.push(e);
    let done1 = done.insert(room);
    assert forall|k: int| 0 <= k < q.len() implies #[trigger] q1[k] == q[k] by {}
    assert(q1[q.len() as int] == e);
    assert forall|k: int| 0 <= k < q1.len() implies {
        &&& (#[trigger] q1[k]).0 < par.len()
        &&& par[q1[k].0 as int] is Some
        &&& par[q1[k].0 as int].unwrap().1 <= q1[k].1
        &&& q1[k].1 == (if k < left {
            cur as int
        } else {
            cur + 1int
        })
    } by {
        if k < q.len() {
            assert(q1[k] == q[k]);
        }
    }
    assert forall|p: usize, j: int|
        #![trigger done1.contains(p), g[p as int][j]]
        done1.contains(p) && 0 <= j < g[p as int].len() && !blocked(used, g[p as int][j], cur + 1int)
            implies par[g[p as int][j] as int] is Some by {
        if p != room {
            assert(done.contains(p));
        }
    }
    assert forall|r: usize| #[trigger] reach(g, start, used, cur).contains(r) implies done1.contains(
        r,
    ) || queued(q1, r, cur as int) by {
        if queued(q, r, cur as int) {
            lemma_push_queued(q, e, r, cur as int);
        }
    }
    assert forall|r: usize| r < n && #[trigger] par[r as int] is Some implies done1.contains(r)
        || queued(q1, r, cur as int) || queued(q1, r, cur + 1int) by {
        if queued(q, r, cur as int) {
            lemma_push_queued(q, e, r, cur as int);
        } else if queued(q, r, cur + 1int) {
            lemma_push_queued(q, e, r, cur + 1int);
        }
    }
    assert forall|p: usize| #[trigger] done1.contains(p) implies p < n && queued(q1, p, cur + 1int) by {
        lemma_push_queued(q, e, p, cur + 1int);
    }
}

/// Facts of the search state that the search itself reads.
proof fn lemma_search_facts(
    g: Seq<Seq<usize>>,
    start: usize,
    end: usize,
    used: Seq<Set<usize>>,
    n: nat,
    par: Seq<Option<(usize, usize)>>,
    q: Seq<(usize, usize)>,
    cur: nat,
    left: nat,
    done: Set<usize>,
    held: Set<usize>,
)
    requires
        search_inv(g, start, end, used, n, par, q, cur, left, done, held),
    ensures
        par.len() == n,
        parents_wf(par, g, start, used),
        par[end as int] is None,
        !reach(g, start, used, cur).contains(end),
        left <= q.len(),
        left == 0 && q.len() > 0 ==> q[0].1 == cur + 1int,
{
    reveal(search_inv);
    if left == 0 && q.len() > 0 {
        assert(q[0].1 == cur + 1int);
    }
}

/// Entering `end` at turn `cur + 1` from `room` keeps the search tree well formed, and
/// `end` could not be reached earlier.
proof fn lemma_search_enter_end(
    g: Seq<Seq<usize>>,
    start: usize,
    end: usize,
    used: Seq<Set<usize>>,
    n: nat,
    par: Seq<Option<(usize, usize)>>,
    q: Seq<(usize, usize)>,
    cur: nat,
    left: nat,
    done: Set<usize>,
    held: Set<usize>,
    room: usize,
)
    requires
        search_inv(g, start, end, used, n, par, q, cur, left, done, held),
        start != end,
        end < n,
        room < n,
        cur + 1 <= usize::MAX,
        par[room as int] is Some,
        par[room as int].unwrap().1 <= cur,
        edge(g, room, end),
        !blocked(used, end, cur + 1int),
    ensures
        parents_wf(par.update(end as int, Some((room, (cur + 1) as usize))), g, start, used),
        !reach(g, start, used, cur).contains(end),
{
    reveal(search_inv);
    let par1 = par.update(end as int, Some((room, (cur + 1) as usize)));
    assert forall|r: int| 0 <= r < par1.len() && r != start && #[trigger] par1[r] is Some implies {
        let (p, t) = par1[r].unwrap();
        &&& p < par1.len()
        &&& par1[p as int] is Some
        &&& par1[p as int].unwrap().1 < t
        &&& edge(g, p, r as usize)
        &&& !blocked(used, r as usize, t as int)
        &&& !reach(g, start, used, (t - 1) as nat).contains(r as usize)
    } by {
        if r != end {
            assert(par[r] is Some);
        }
    }
}

/// A schedule that reaches `end` at turn `cur + 1`, when `end` cannot be reached at turn
/// `cur`, is an earliest arrival.
proof fn lemma_first_arrival(
    g: Seq<Seq<usize>>,
    start: usize,
    used: Seq<Set<usize>>,
    end: usize,
    cur: nat,
    path: Seq<usize>,
)
    requires
        arrives(g, start, used, end, path),
        path.len() == cur + 2,
        !reach(g, start, used, cur).contains(end),
    ensures
        earliest_arrival(g, start, used, end, path),
{
    assert forall|other: Seq<usize>| #[trigger] arrives(g, start, used, end, other) implies path.len()
        <= other.len() by {
        lemma_schedule_in_reach(g, start, used, other, other.len() - 1);
        if other.len() < path.len() {
            lemma_reach_mono(g, start, used, (other.len() - 1) as nat, cur);
        }
    }
}

/// A path read off the search tree enters every room at the turn that room entered the
/// tree, the first turn it can be reached, and stays in it without interruption.
proof fn lemma_tree_path_first_visits(
    par: Seq<Option<(usize, usize)>>,
    g: Seq<Seq<usize>>,
    start: usize,
    used: Seq<Set<usize>>,
    path: Seq<usize>,
)
    requires
        parents_wf(par, g, start, used),
        forall|t: int| 0 <= t < path.len() ==> #[trigger] block_ok(par, path, t),
    ensures
        first_visits(g, start, used, path),
{
    assert forall|t: int| 1 <= t < path.len() implies #[trigger] entered_first(g, start, used, path, t) by {
        assert(block_ok(par, path, t));
        let r = path[t];
        if r != path[t - 1] {
            let b = par[r as int].unwrap().1;
            assert(b == t);
            assert(r != start);
        }
    }
    assert forall|t1: int, t2: int, t3: int| 0 <= t1 <= t2 <= t3 < path.len() implies #[trigger] stays_between(
        path,
        t1,
        t2,
        t3,
    ) by {
        assert(block_ok(par, path, t1));
        assert(block_ok(par, path, t3));
    }
}

/// Rooms queued for turn `t`.
pub open spec fn timed(rooms: Seq<usize>, t: int) -> Seq<(usize, usize)> {
    rooms.map_values(|r: usize| (r, t as usize))
}

/// Taking the first entry of a queue made of the rooms of turn `t` from index `k` on,
/// followed by `rest`.
proof fn lemma_refine_pop(layer: Seq<usize>, k: int, t: int, rest: Seq<(usize, usize)>)
    requires
        0 <= k < layer.len(),
    ensures
        (timed(layer.skip(k), t) + rest).len() > 0,
        (timed(layer.skip(k), t) + rest)[0] == (layer[k], t as usize),
        (timed(layer.skip(k), t) + rest).subrange(1, (timed(layer.skip(k), t) + rest).len() as int)
            == timed(layer.skip(k + 1), t) + rest,
{
    let q = timed(layer.skip(k), t) + rest;
    assert(q.subrange(1, q.len() as int) =~= timed(layer.skip(k + 1), t) + rest);
}

/// The search tree after `end` is entered agrees with the tree at the start of the next
/// turn on every room already entered.
proof fn lemma_refine_result(
    g: Seq<Seq<usize>>,
    used: Seq<Set<usize>>,
    start: usize,
    n: nat,
    cur: nat,
    base: Tree,
    layer: Seq<usize>,
    k: int,
    j: int,
    end: usize,
    par: Tree,
)
    requires
        search_state(g, used, start, n, cur) == (base, layer),
        base.len() == n,
        graph_bounded(g, n),
        forall|i: int| 0 <= i < layer.len() ==> #[trigger] layer[i] < n,
        0 <= k < layer.len(),
        0 <= j < g[layer[k] as int].len(),
        par == visit_tubes(
            g,
            used,
            cur as int,
            layer[k],
            expand_layer(g, used, cur as int, layer, base, k).0,
            expand_layer(g, used, cur as int, layer, base, k).1,
            j + 1,
        ).0,
        parents_wf(par, g, start, used),
        end < par.len(),
        par[end as int] is Some,
    ensures
        tree_schedule(par, end) == tree_schedule(search_state(g, used, start, n, cur + 1).0, end),
{
    let (trk, nxk) = expand_layer(g, used, cur as int, layer, base, k);
    let p = layer[k];
    lemma_expand_layer_extends(g, used, cur as int, layer, base, k, k);
    lemma_expand_layer_extends(g, used, cur as int, layer, base, k + 1, layer.len() as int);
    assert forall|i: int| 0 <= i < g[p as int].len() implies #[trigger] g[p as int][i] < trk.len() by {
        assert(g[p as int][i] < n);
    }
    lemma_visit_tubes_extends(g, used, cur as int, p, trk, nxk, j + 1, g[p as int].len() as int);
    let full = search_state(g, used, start, n, cur + 1).0;
    let mid = expand_layer(g, used, cur as int, layer, base, k + 1).0;
    lemma_tree_extends_trans(par, mid, full);
    assert forall|i: int| 0 <= i < arrival(par, end) + 1 implies tree_schedule(par, end)[i]
        == tree_schedule(full, end)[i] by {
        lemma_occupant_agrees(par, full, start, g, used, end, i);
    }
    lemma_occupant_agrees(par, full, start, g, used, end, 0);
    assert(tree_schedule(par, end) =~= tree_schedule(full, end));
}

/// Finds the schedule of one ant: a breadth-first search over (room, turn) pairs from the
/// start room at turn 0, where an ant may wait in its room or move through a tube into a
/// room that is not reserved at the next turn.  Each room is entered at most once, at the
/// first turn it can be reached.  The search stops as soon as the end room is entered.
/// Turns are counted in `usize`: when the end room cannot be reached before turn
/// `usize::MAX` (a schedule that a `Vec` could not hold), there is no schedule.
pub fn bfs(map: &Farm, used_rooms_by_time: &[HashSet<usize>]) -> (result: Option<Path>)
    requires
        map.wf(),
        map.start != map.end,
        connected(map.graph(), map.start, map.end),
    ensures
        result is Some <==> reach(
            map.graph(),
            map.start,
            used_view(used_rooms_by_time@),
            (usize::MAX - 1) as nat,
        ).contains(map.end),
        result matches Some(path) ==> {
            &&& earliest_arrival(
                map.graph(),
                map.start,
                used_view(used_rooms_by_time@),
                map.end,
                path@,
            )
            &&& first_visits(map.graph(), map.start, used_view(used_rooms_by_time@), path@)
            &&& path.len() <= used_rooms_by_time.len() + map.rooms.len() + 1
            &&& forall|t: int| 0 <= t < path.len() ==> #[trigger] path@[t] < map.rooms.len()
            &&& path@ == tree_schedule(
                search_state(
                    map.graph(),
                    used_view(used_rooms_by_time@),
                    map.start,
                    map.rooms.len() as nat,
                    (path.len() - 1) as nat,
                ).0,
                map.end,
            )
        },
{
    let n = map.rooms.len();
    let ghost g = map.graph();
    let ghost used = used_view(used_rooms_by_time@);
    let ghost start = map.start;
    let ghost end = map.end;
    let mut parents: Vec<Option<(usize, usize)>> = Vec::new();
    while parents.len() < n
        invariant
            parents.len() <= n,
            forall|i: int| 0 <= i < parents.len() ==> parents@[i] is None,
        decreases n - parents.len(),
    {
        parents.push(None);
    }
    parents.set(map.start, Some((map.start, 0)));
    let mut queue: VecDeque<(usize, usize)> = VecDeque::new();
    queue.push_back((map.start, 0));
    let ghost mut cur: nat = 0;
    let ghost mut left: nat = 1;
    let ghost mut done: Set<usize> = Set::empty();
    let ghost mut base: Tree = initial_tree(n as nat, start);
    let ghost mut layer: Seq<usize> = seq![start];
    proof {
        assert(queue@ == seq![(start, 0usize)]);
        lemma_search_init(g, start, end, used, n as nat, parents@, queue@);
        assert(parents@ =~= base);
        assert(queue@ =~= timed(layer.skip(0), 0) + timed(Seq::<usize>::empty(), 1));
    }
    loop
        invariant
            map.wf(),
            g == map.graph(),
            used == used_view(used_rooms_by_time@),
            start == map.start,
            end == map.end,
            n == map.rooms.len(),
            start != end,
            connected(g, start, end),
            cur < used.len() + n,
            queue@.len() > 0,
            search_inv(g, start, end, used, n as nat, parents@, queue@, cur, left, done, done),
            search_state(g, used, start, n as nat, cur) == (base, layer),
            base.len() == n,
            forall|i: int| 0 <= i < layer.len() ==> #[trigger] layer[i] < n,
            left <= layer.len(),
            parents@ == expand_layer(g, used, cur as int, layer, base, layer.len() - left).0,
            queue@ == timed(layer.skip(layer.len() - left), cur as int) + timed(
                expand_layer(g, used, cur as int, layer, base, layer.len() - left).1,
                cur + 1int,
            ),
        decreases used.len() + n - cur, left,
    {
        proof {
            lemma_search_facts(g, start, end, used, n as nat, parents@, queue@, cur, left, done, done);
            if left == 0 {
                lemma_search_next_turn(g, start, end, used, n as nat, parents@, queue@, cur, done);
                let nx = expand_layer(g, used, cur as int, layer, base, layer.len() as int).1;
                assert(queue@ =~= timed(nx, cur + 1int));
                assert forall|i: int| 0 <= i < nx.len() implies #[trigger] nx[i] < n by {
                    lemma_search_facts(g, start, end, used, n as nat, parents@, queue@, cur, left, done, done);
                    reveal(search_inv);
                    assert(queue@[i] == (nx[i], (cur + 1) as usize));
                }
                base = parents@;
                layer = nx;
                cur = cur + 1;
                left = queue@.len();
                done = Set::empty();
                assert(queue@ =~= timed(layer.skip(0), cur as int) + timed(Seq::<usize>::empty(), cur + 1int));
            }
            lemma_search_pop(g, start, end, used, n as nat, parents@, queue@, cur, left, done);
        }
        let ghost q0 = queue@;
        let entry = queue.pop_front();
        let (room, time) = match entry {
            Some(e) => e,
            None => {
                proof {
                    assert(false);
                }
                return None;
            },
        };
        let ghost k: int = layer.len() - left;
        proof {
            assert(queue@ == q0.subrange(1, q0.len() as int));
            lemma_refine_pop(
                layer,
                k,
                cur as int,
                timed(expand_layer(g, used, cur as int, layer, base, k).1, cur + 1int),
            );
            left = (left - 1) as nat;
        }
        if time >= usize::MAX - 1 {
            proof {
                lemma_search_facts(g, start, end, used, n as nat, parents@, q0, cur, left + 1, done, done);
                lemma_reach_mono(g, start, used, (usize::MAX - 1) as nat, cur);
            }
            return None;
        }
        let neighbors = &map.links[room];
        let next_time = time + 1;
        let mut j: usize = 0;
        while j < neighbors.len()
            invariant
                map.wf(),
                g == map.graph(),
                used == used_view(used_rooms_by_time@),
                start == map.start,
                end == map.end,
                n == map.rooms.len(),
                start != end,
                cur < used.len() + n,
                cur + 1 < usize::MAX,
                time == cur,
                next_time == cur + 1int,
                room < n,
                neighbors@ == g[room as int],
                parents@[room as int] is Some,
                parents@[room as int].unwrap().1 <= cur,
                search_inv(
                    g,
                    start,
                    end,
                    used,
                    n as nat,
                    parents@,
                    queue@,
                    cur,
                    left,
                    done,
                    done.insert(room),
                ),
                forall|jj: int|
                    0 <= jj < j && !blocked(used, #[trigger] g[room as int][jj], cur + 1int)
                        ==> parents@[g[room as int][jj] as int] is Some,
                search_state(g, used, start, n as nat, cur) == (base, layer),
                base.len() == n,
                forall|i: int| 0 <= i < layer.len() ==> #[trigger] layer[i] < n,
                k == layer.len() - left - 1,
                0 <= k < layer.len(),
                room == layer[k],
                j <= neighbors.len(),
                parents@ == visit_tubes(
                    g,
                    used,
                    cur as int,
                    room,
                    expand_layer(g, used, cur as int, layer, base, k).0,
                    expand_layer(g, used, cur as int, layer, base, k).1,
                    j as int,
                ).0,
                queue@ == timed(layer.skip(k + 1), cur as int) + timed(
                    visit_tubes(
                        g,
                        used,
                        cur as int,
                        room,
                        expand_layer(g, used, cur as int, layer, base, k).0,
                        expand_layer(g, used, cur as int, layer, base, k).1,
                        j as int,
                    ).1,
                    cur + 1int,
                ),
            decreases neighbors.len() - j,
        {
            let neighbor = neighbors[j];
            proof {
                lemma_search_facts(
                    g,
                    start,
                    end,
                    used,
                    n as nat,
                    parents@,
                    queue@,
                    cur,
                    left,
                    done,
                    done.insert(room),
                );
                assert(g[room as int][j as int] == neighbor);
                assert(neighbor < n);
            }
            let is_used = next_time < used_rooms_by_time.len()
                && used_rooms_by_time[next_time].contains(&neighbor);
            proof {
                assert(is_used == blocked(used, neighbor, cur + 1int));
            }
            if parents[neighbor].is_none() && !is_used {
                proof {
                    assert(edge(g, room, neighbor));
                }
                if neighbor == map.end {
                    proof {
                        lemma_search_enter_end(
                            g,
                            start,
                            end,
                            used,
                            n as nat,
                            parents@,
                            queue@,
                            cur,
                            left,
                            done,
                            done.insert(room),
                            room,
                        );
                    }
                    parents.set(neighbor, Some((room, next_time)));
                    proof {
                        lemma_walk_tree(parents@, g, start, used, end, cur + 1int);
                    }
                    let path = reconstruct_path(parents.as_slice(), map.start, map.end);
                    proof {
                        let w = walk_back(parents@, start, end, cur + 1int);
                        assert(path@ == w);
                        assert(path@ =~= tree_schedule(parents@, end));
                        assert(w[cur + 1int] == end);
                        assert(arrives(g, start, used, end, path@));
                        let trk = expand_layer(g, used, cur as int, layer, base, k).0;
                        let nxk = expand_layer(g, used, cur as int, layer, base, k).1;
                        assert(parents@ == visit_tubes(g, used, cur as int, room, trk, nxk, j + 1).0);
                        lemma_refine_result(
                            g,
                            used,
                            start,
                            n as nat,
                            cur,
                            base,
                            layer,
                            k,
                            j as int,
                            end,
                            parents@,
                        );
                        lemma_first_arrival(g, start, used, end, cur, path@);
                        lemma_tree_path_first_visits(parents@, g, start, used, path@);
                        assert forall|t: int| 0 <= t < path.len() implies #[trigger] path@[t] < n by {
                            lemma_schedule_in_reach(g, start, used, path@, t);
                            lemma_reach_bounded(g, start, used, n as nat, t as nat);
                        }
                        lemma_schedule_in_reach(g, start, used, path@, cur + 1int);
                        lemma_reach_mono(g, start, used, cur + 1, (usize::MAX - 1) as nat);
                    }
                    return Some(path);
                }
                proof {
                    lemma_search_discover(
                        g,
                        start,
                        end,
                        used,
                        n as nat,
                        parents@,
                        queue@,
                        cur,
                        left,
                        done,
                        room,
                        neighbor,
                    );
                }
                parents.set(neighbor, Some((room, next_time)));
                queue.push_back((neighbor, next_time));
            }
            j += 1;
        }
        proof {
            lemma_search_requeue(
                g,
                start,
                end,
                used,
                n as nat,
                parents@,
                queue@,
                cur,
                left,
                done,
                room,
            );
        }
        queue.push_back((room, next_time));
        proof {
            done = done.insert(room);
        }
    }
}

/// Reserves, at every turn strictly between the first and the last of `path`, the room the
/// ant holds then, growing the table with empty turns where it is too short.
pub fn update_used_rooms(used_rooms_by_time: &mut Vec<HashSet<usize>>, path: &Path)
    requires
        path.len() >= 1,
    ensures
        used_view(final(used_rooms_by_time)@) == reserve(used_view(old(used_rooms_by_time)@), path@),
{
    let ghost old_used = used_view(used_rooms_by_time@);
    let last = path.len() - 1;
    let mut time: usize = 1;
    proof {
        let r1 = reserve_upto(old_used, path@, 1);
        assert forall|t: int| 0 <= t < r1.len() implies r1[t] =~= old_used[t] by {}
        assert(used_view(used_rooms_by_time@) =~= r1);
    }
    while time < last
        invariant
            last == path.len() - 1,
            1 <= time,
            time <= last || (last == 0 && time == 1),
            used_view(used_rooms_by_time@) == reserve_upto(old_used, path@, time as int),
        decreases last - time,
    {
        let ghost before = used_view(used_rooms_by_time@);
        while used_rooms_by_time.len() <= time
            invariant
                time < last,
                used_rooms_by_time.len() >= before.len(),
                used_rooms_by_time.len() == before.len() || used_rooms_by_time.len() <= time + 1,
                forall|t: int| 0 <= t < before.len() ==> #[trigger] used_rooms_by_time@[t]@ == before[t],
                forall|t: int|
                    before.len() <= t < used_rooms_by_time.len() ==> #[trigger] used_rooms_by_time@[t]@
                        == Set::<usize>::empty(),
            decreases time + 1 - used_rooms_by_time.len(),
        {
            used_rooms_by_time.push(HashSet::new());
        }
        let ghost grown = used_rooms_by_time@;
        used_rooms_by_time[time].insert(path[time]);
        proof {
            let after = used_view(used_rooms_by_time@);
            let target = reserve_upto(old_used, path@, time + 1);
            assert(after.len() == target.len());
            assert forall|t: int| 0 <= t < after.len() implies after[t] =~= target[t] by {
                if t != time {
                    assert(used_rooms_by_time@[t] == grown[t]);
                    if t < before.len() {
                        assert(before[t] == reserve_upto(old_used, path@, time as int)[t]);
                    }
                } else if t < before.len() {
                    assert(before[t] == reserve_upto(old_used, path@, time as int)[t]);
                }
            }
            assert(after =~= target);
        }
        time += 1;
    }
    proof {
        if last == 0 {
            let r0 = reserve_upto(old_used, path@, 0);
            let r1 = reserve_upto(old_used, path@, 1);
            assert forall|t: int| 0 <= t < r1.len() implies r1[t] =~= r0[t] by {}
            assert(r1 =~= r0);
        }
    }
}

/// The schedules as sequences.
pub open spec fn paths_view(paths: Seq<Vec<usize>>) -> Seq<Seq<usize>> {
    paths.map_values(|p: Vec<usize>| p@)
}

/// Routes the ants one after another: each ant takes an earliest schedule given the rooms
/// reserved by the ants before it, and then reserves its own rooms.  When some ant could
/// only reach the end room at turn `usize::MAX` or later, there is no routing.
pub fn repeated_bfs(map: &Farm) -> (result: Option<Vec<Path>>)
    requires
        map.wf(),
        map.start != map.end,
        connected(map.graph(), map.start, map.end),
    ensures
        match result {
            Some(paths) => {
                &&& paths.len() == map.ants
                &&& routed(map.graph(), map.start, map.end, paths_view(paths@))
                &&& forall|a: int, t: int|
                    0 <= a < paths.len() && 0 <= t < paths@[a].len() ==> #[trigger] paths@[a]@[t]
                        < map.rooms.len()
            },
            None => exists|before: Seq<Seq<usize>>|
                {
                    &&& before.len() < map.ants
                    &&& routed(map.graph(), map.start, map.end, before)
                    &&& !#[trigger] reach(
                        map.graph(),
                        map.start,
                        reservations(before),
                        (usize::MAX - 1) as nat,
                    ).contains(map.end)
                },
        },
{
    let n = map.rooms.len();
    let mut paths: Vec<Path> = Vec::new();
    let mut used_rooms_by_time: Vec<HashSet<usize>> = Vec::new();
    let mut ant: u32 = 0;
    proof {
        assert(used_view(used_rooms_by_time@) =~= reservations(paths_view(paths@)));
    }
    while ant < map.ants
        invariant
            map.wf(),
            map.start != map.end,
            connected(map.graph(), map.start, map.end),
            n == map.rooms.len(),
            ant <= map.ants,
            paths.len() == ant,
            used_view(used_rooms_by_time@) == reservations(paths_view(paths@)),
            routed(map.graph(), map.start, map.end, paths_view(paths@)),
            forall|a: int, t: int|
                0 <= a < paths.len() && 0 <= t < paths@[a].len() ==> #[trigger] paths@[a]@[t] < n,
        decreases map.ants - ant,
    {
        let path = match bfs(map, used_rooms_by_time.as_slice()) {
            Some(path) => path,
            None => {
                proof {
                    let before = paths_view(paths@);
                    assert(!reach(
                        map.graph(),
                        map.start,
                        reservations(before),
                        (usize::MAX - 1) as nat,
                    ).contains(map.end));
                }
                return None;
            },
        };
        let ghost before = paths_view(paths@);
        update_used_rooms(&mut used_rooms_by_time, &path);
        paths.push(path);
        proof {
            let after = paths_view(paths@);
            assert(after.drop_last() =~= before);
            assert(after.last() == path@);
            assert forall|k: int| 0 <= k < after.len() implies #[trigger] after.take(k) == (if k
                < before.len() {
                before.take(k)
            } else {
                before
            }) by {
                if k < before.len() {
                    assert(after.take(k) =~= before.take(k));
                } else {
                    assert(after.take(k) =~= before);
                }
            }
            assert(before.take(before.len() as int) =~= before);
            assert forall|k: int| 0 <= k < after.len() implies #[trigger] routed_at(
                map.graph(),
                map.start,
                map.end,
                after,
                k,
            ) by {
                if k < before.len() {
                    assert(after[k] == before[k]);
                    assert(routed_at(map.graph(), map.start, map.end, before, k));
                }
            }
        }
        ant += 1;
    }
    Some(paths)
}

/// Tells whether the end room can be reached from the start room through the tubes.
pub fn end_reachable(map: &Farm) -> (r: bool)
    requires
        map.wf(),
    ensures
        r == connected(map.graph(), map.start, map.end),
{
    let n = map.rooms.len();
    let ghost g = map.graph();
    let ghost free = Seq::<Set<usize>>::empty();
    let mut seen: Vec<bool> = Vec::new();
    while seen.len() < n
        invariant
            seen.len() <= n,
            forall|i: int| 0 <= i < seen.len() ==> !seen@[i],
        decreases n - seen.len(),
    {
        seen.push(false);
    }
    seen.set(map.start, true);
    let ghost mut k: nat = 0;
    proof {
        assert forall|r: usize| r < n implies seen@[r as int] == reach(g, map.start, free, 0).contains(r) by {}
        lemma_reach_bounded(g, map.start, free, n as nat, 0);
    }
    loop
        invariant
            map.wf(),
            g == map.graph(),
            n == map.rooms.len(),
            seen.len() == n,
            free == Seq::<Set<usize>>::empty(),
            forall|r: usize| r < n ==> seen@[r as int] == #[trigger] reach(g, map.start, free, k).contains(r),
            reach(g, map.start, free, k).subset_of(Set::<usize>::range(0, n)),
            reach(g, map.start, free, k).finite(),
            reach(g, map.start, free, k).len() <= n,
        decreases n - reach(g, map.start, free, k).len(),
    {
        if seen[map.end] {
            proof {
                assert(reach(g, map.start, Seq::<Set<usize>>::empty(), k).contains(map.end));
            }
            return true;
        }
        let ghost cur = reach(g, map.start, free, k);
        let mut next: Vec<bool> = Vec::new();
        let mut grew = false;
        let mut p: usize = 0;
        while p < n
            invariant
                map.wf(),
                g == map.graph(),
                n == map.rooms.len(),
                seen.len() == n,
                p <= n,
                next.len() == p,
                forall|i: int| 0 <= i < p ==> next@[i] == seen@[i],
                !grew,
            decreases n - p,
        {
            next.push(seen[p]);
            p += 1;
        }
        let mut p: usize = 0;
        while p < n
            invariant
                map.wf(),
                g == map.graph(),
                n == map.rooms.len(),
                seen.len() == n,
                next.len() == n,
                p <= n,
                forall|r: usize| r < n ==> seen@[r as int] == #[trigger] cur.contains(r),
                forall|r: usize| #![trigger next@[r as int]]
                    r < n ==> (next@[r as int] <==> (seen@[r as int] || exists|q: usize|
                        q < p && #[trigger] cur.contains(q) && edge(g, q, r))),
                grew <==> exists|r: usize| r < n && next@[r as int] && !seen@[r as int],
            decreases n - p,
        {
            if seen[p] {
                let neighbors = &map.links[p];
                let mut j: usize = 0;
                while j < neighbors.len()
                    invariant
                        map.wf(),
                        g == map.graph(),
                        n == map.rooms.len(),
                        seen.len() == n,
                        next.len() == n,
                        p < n,
                        seen@[p as int],
                        neighbors@ == g[p as int],
                        j <= neighbors.len(),
                        forall|r: usize| r < n ==> seen@[r as int] == #[trigger] cur.contains(r),
                        forall|r: usize| #![trigger next@[r as int]]
                            r < n ==> (next@[r as int] <==> (seen@[r as int] || (exists|q: usize|
                                q < p && #[trigger] cur.contains(q) && edge(g, q, r)) || (exists|jj: int|
                                0 <= jj < j && #[trigger] g[p as int][jj] == r))),
                        grew <==> exists|r: usize| r < n && next@[r as int] && !seen@[r as int],
                    decreases neighbors.len() - j,
                {
                    let r = neighbors[j];
                    proof {
                        assert(g[p as int][j as int] == r);
                    }
                    if !next[r] {
                        next.set(r, true);
                        grew = true;
                    }
                    j += 1;
                }
                proof {
                    assert(cur.contains(p));
                    assert forall|r: usize| r < n implies (next@[r as int] <==> (seen@[r as int] || exists|q: usize|
                        q < p + 1 && #[trigger] cur.contains(q) && edge(g, q, r))) by {
                        if exists|q: usize| q < p + 1 && #[trigger] cur.contains(q) && edge(g, q, r) {
                            let q = choose|q: usize| q < p + 1 && #[trigger] cur.contains(q) && edge(g, q, r);
                            if q == p {
                                let jj = choose|jj: int| 0 <= jj < g[p as int].len() && g[p as int][jj] == r;
                                assert(g[p as int][jj] == r);
                            }
                        }
                        if exists|jj: int| 0 <= jj < neighbors.len() && #[trigger] g[p as int][jj] == r {
                            let jj = choose|jj: int| 0 <= jj < neighbors.len() && #[trigger] g[p as int][jj] == r;
                            assert(g[p as int][jj] == r);
                            assert(edge(g, p, r));
                        }
                    }
                }
            }
            p += 1;
        }
        proof {
            let nxt = reach(g, map.start, free, k + 1);
            assert forall|r: usize| r < n implies next@[r as int] == #[trigger] nxt.contains(r) by {
                if next@[r as int] && !seen@[r as int] {
                    let q = choose|q: usize| q < n && #[trigger] cur.contains(q) && edge(g, q, r);
                    lemma_step_set_contains(g, free, cur, (k + 1) as int, q, r);
                }
            }
            lemma_reach_bounded(g, map.start, free, n as nat, k + 1);
            lemma_reach_mono(g, map.start, free, k, k + 1);
        }
        if !grew {
            proof {
                let nxt = reach(g, map.start, free, k + 1);
                assert(nxt.subset_of(cur));
                assert forall|j: nat| !#[trigger] reach(g, map.start, free, j).contains(map.end) by {
                    lemma_closed_contains_free(g, map.start, free, k, j);
                }
            }
            return false;
        }
        proof {
            let nxt = reach(g, map.start, free, k + 1);
            let r = choose|r: usize| r < n && next@[r as int] && !seen@[r as int];
            vstd::set::axiom_set_insert_len(cur, r);
            vstd::set_lib::lemma_len_subset(cur.insert(r), nxt);
        }
        seen = next;
        proof {
            k = k + 1;
        }
    }
}

} // verus!
