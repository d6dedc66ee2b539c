//! The state that both single-source solvers maintain, and why it is sound.
//!
//! A search keeps a tentative distance for every node and a set of settled
//! nodes. [`relaxing`] is the invariant of the search; the lemmas below show
//! that it is kept by each step and that it pins down the answer once the
//! target is settled or the frontier is empty.

use vstd::prelude::*;
use crate::graph::{Hop, Neighbor, is_walk, walk_weight, well_formed};

verus! {

/// The tentative distance of a node that no walk has reached yet.
pub const UNREACHED: u32 = u32::MAX;

/// The ghost picture of a search in progress.
pub struct Search {
    /// The tentative distance of each node.
    pub dist: Seq<u32>,
    /// Which nodes are settled.
    pub done: Seq<bool>,
    /// For each reached node, a walk whose weight is its tentative distance.
    pub paths: Seq<Seq<Hop>>,
}

/// How many entries of `s` are `true`.
pub open spec fn count_true(s: Seq<bool>) -> nat
    decreases s.len(),
{
    if s.len() == 0 {
        0
    } else {
        count_true(s.drop_last()) + if s.last() {
            1nat
        } else {
            0nat
        }
    }
}

/// No more entries are `true` than there are entries.
pub proof fn lemma_count_bounded(s: Seq<bool>)
    ensures
        count_true(s) <= s.len(),
    decreases s.len(),
{
    if s.len() > 0 {
        lemma_count_bounded(s.drop_last());
    }
}

/// Where every entry is `false`, the count is zero.
pub proof fn lemma_count_all_false(s: Seq<bool>)
    requires
        forall|i: int| 0 <= i < s.len() ==> !s[i],
    ensures
        count_true(s) == 0,
    decreases s.len(),
{
    if s.len() > 0 {
        lemma_count_all_false(s.drop_last());
    }
}

/// Settling one more node raises the count by one.
pub proof fn lemma_count_set(s: Seq<bool>, i: int)
    requires
        0 <= i < s.len(),
        !s[i],
    ensures
        count_true(s.update(i, true)) == count_true(s) + 1,
        count_true(s) < s.len(),
    decreases s.len(),
{
    let t = s.update(i, true);
    if i == s.len() - 1 {
        assert(t.drop_last() == s.drop_last());
        lemma_count_bounded(s.drop_last());
    } else {
        assert(t.drop_last() == s.drop_last().update(i, true));
        lemma_count_set(s.drop_last(), i);
    }
}

/// The state before any node is settled: only the start is reached.
pub open spec fn initial(n: nat, s: int) -> Search {
    Search {
        dist: Seq::new(n, |v: int| if v == s { 0u32 } else { UNREACHED }),
        done: Seq::new(n, |v: int| false),
        paths: Seq::new(n, |v: int| Seq::<Hop>::empty()),
    }
}

/// The invariant of a search from `s`. Every settled node has all its edges
/// relaxed, except that of node `u` only the first `j` are. With `u == -1`
/// nothing is excepted.
pub open spec fn relaxing(adj: Seq<Seq<Neighbor>>, s: int, st: Search, u: int, j: int) -> bool {
    let n = adj.len();
    &&& well_formed(adj)
    &&& 0 <= s < n
    &&& st.dist.len() == n
    &&& st.done.len() == n
    &&& st.paths.len() == n
    &&& st.dist[s] == 0
    &&& forall|v: int|
        0 <= v < n && #[trigger] st.dist[v] < UNREACHED ==> is_walk(adj, s, v, st.paths[v])
            && walk_weight(adj, st.paths[v]) == st.dist[v]
    &&& forall|v: int| 0 <= v < n && #[trigger] st.done[v] ==> st.dist[v] < UNREACHED
    &&& forall|x: int, y: int|
        0 <= x < n && 0 <= y < n && #[trigger] st.done[x] && !#[trigger] st.done[y] ==> st.dist[x]
            <= st.dist[y]
    &&& forall|x: int, i: int|
        0 <= x < n && 0 <= i < adj[x].len() && st.done[x] && (x != u || i < j)
            ==> st.dist[(#[trigger] adj[x][i]).node as int] <= st.dist[x] + adj[x][i].weight
    &&& forall|v: int|
        0 <= v < n && #[trigger] st.dist[v] < UNREACHED ==> st.dist[v] <= u16::MAX * count_true(
            st.done,
        )
    &&& 0 <= u < n ==> {
        &&& st.done[u]
        &&& st.dist[u] + u16::MAX <= u16::MAX * count_true(st.done)
        &&& forall|x: int| 0 <= x < n && #[trigger] st.done[x] ==> st.dist[x] <= st.dist[u]
    }
}

/// The invariant between two steps: every settled node has all its edges relaxed.
pub open spec fn settled(adj: Seq<Seq<Neighbor>>, s: int, st: Search) -> bool {
    relaxing(adj, s, st, -1, 0)
}

/// `u` is unsettled, reached, and no unsettled node is closer.
pub open spec fn is_closest(st: Search, u: int) -> bool {
    &&& 0 <= u < st.dist.len()
    &&& !st.done[u]
    &&& st.dist[u] < UNREACHED
    &&& forall|y: int| 0 <= y < st.dist.len() && !#[trigger] st.done[y] ==> st.dist[u] <= st.dist[y]
}

/// The state after `u` is settled.
pub open spec fn settle(st: Search, u: int) -> Search {
    Search { dist: st.dist, done: st.done.update(u, true), paths: st.paths }
}

/// The state after a shorter walk to the head of edge `j` of `u` was found.
pub open spec fn improve(adj: Seq<Seq<Neighbor>>, st: Search, u: int, j: int) -> Search {
    let e = adj[u][j];
    Search {
        dist: st.dist.update(e.node as int, (st.dist[u] + e.weight) as u32),
        done: st.done,
        paths: st.paths.update(e.node as int, st.paths[u].push(Hop { from: u, slot: j })),
    }
}

/// The initial state satisfies the invariant.
pub proof fn lemma_initial(adj: Seq<Seq<Neighbor>>, s: int)
    requires
        well_formed(adj),
        0 <= s < adj.len(),
    ensures
        settled(adj, s, initial(adj.len(), s)),
{
    let st = initial(adj.len(), s);
    lemma_count_all_false(st.done);
    assert(is_walk(adj, s, s, st.paths[s]));
    assert(walk_weight(adj, st.paths[s]) == 0);
}

/// No settled node is farther than the closest unsettled one, so settling it
/// keeps the invariant, with none of its edges relaxed yet.
pub proof fn lemma_settle(adj: Seq<Seq<Neighbor>>, s: int, st: Search, u: int)
    requires
        settled(adj, s, st),
        is_closest(st, u),
    ensures
        relaxing(adj, s, settle(st, u), u, 0),
        count_true(settle(st, u).done) == count_true(st.done) + 1,
        count_true(st.done) < adj.len(),
{
    let after = settle(st, u);
    let n = adj.len();
    lemma_count_set(st.done, u);
    let c = count_true(st.done) as int;
    assert(u16::MAX * (c + 1) == u16::MAX * c + u16::MAX) by (nonlinear_arith);
    assert forall|x: int, y: int|
        0 <= x < n && 0 <= y < n && #[trigger] after.done[x] && !#[trigger] after.done[y]
        implies after.dist[x] <= after.dist[y] by {
        assert(!st.done[y]);
        if x != u {
            assert(st.done[x]);
        }
    }
    assert forall|x: int, i: int|
        0 <= x < n && 0 <= i < adj[x].len() && after.done[x] && (x != u || i < 0)
        implies after.dist[(#[trigger] adj[x][i]).node as int] <= after.dist[x]
        + adj[x][i].weight by {
        assert(st.done[x]);
    }
    assert forall|x: int| 0 <= x < n && #[trigger] after.done[x] implies after.dist[x]
        <= after.dist[u] by {
        if x != u {
            assert(st.done[x]);
            assert(!st.done[u]);
        }
    }
    assert forall|v: int| 0 <= v < n && #[trigger] after.done[v] implies after.dist[v]
        < UNREACHED by {
        if v != u {
            assert(st.done[v]);
        }
    }
}

/// The sum that a relaxation computes never reaches the sentinel.
pub proof fn lemma_no_saturation(adj: Seq<Seq<Neighbor>>, s: int, st: Search, u: int, j: int)
    requires
        relaxing(adj, s, st, u, j),
        0 <= u < adj.len(),
    ensures
        st.dist[u] + u16::MAX < UNREACHED,
{
    lemma_count_bounded(st.done);
    let c = count_true(st.done) as int;
    assert(u16::MAX * c <= u16::MAX * u16::MAX) by (nonlinear_arith)
        requires
            0 <= c <= u16::MAX,
    ;
}

/// Relaxing edge `j` of `u` keeps the invariant, whether or not the edge
/// improves the distance of its head.
pub proof fn lemma_relax(adj: Seq<Seq<Neighbor>>, s: int, st: Search, u: int, j: int)
    requires
        relaxing(adj, s, st, u, j),
        0 <= u < adj.len(),
        0 <= j < adj[u].len(),
    ensures
        st.dist[u] + adj[u][j].weight < UNREACHED,
        st.dist[u] + adj[u][j].weight < st.dist[adj[u][j].node as int] ==> {
            &&& relaxing(adj, s, improve(adj, st, u, j), u, j + 1)
            &&& !st.done[adj[u][j].node as int]
        },
        st.dist[u] + adj[u][j].weight >= st.dist[adj[u][j].node as int] ==> relaxing(
            adj,
            s,
            st,
            u,
            j + 1,
        ),
{
    lemma_no_saturation(adj, s, st, u, j);
    let n = adj.len();
    let e = adj[u][j];
    let t = e.node as int;
    let nd = st.dist[u] + e.weight;
    assert(0 <= t < n);
    if nd < st.dist[t] {
        let after = improve(adj, st, u, j);
        if st.done[t] {
            assert(st.dist[t] <= st.dist[u]);
        }
        assert(!st.done[t]);
        assert(t != s) by {
            if t == s {
                assert(st.dist[s] == 0);
            }
        }
        let hop = Hop { from: u, slot: j };
        let walk = st.paths[u].push(hop);
        assert(st.dist[u] < UNREACHED);
        assert(is_walk(adj, s, t, walk) && walk_weight(adj, walk) == nd) by {
            assert(walk.drop_last() == st.paths[u]);
            assert(walk.last() == hop);
        }
        assert forall|v: int| 0 <= v < n && #[trigger] after.dist[v] < UNREACHED implies is_walk(
            adj,
            s,
            v,
            after.paths[v],
        ) && walk_weight(adj, after.paths[v]) == after.dist[v] by {
            if v != t {
                assert(st.dist[v] < UNREACHED);
            }
        }
        assert forall|x: int, y: int|
            0 <= x < n && 0 <= y < n && #[trigger] after.done[x] && !#[trigger] after.done[y]
            implies after.dist[x] <= after.dist[y] by {
            assert(st.done[x] && !st.done[y]);
            assert(st.dist[x] <= st.dist[u]);
        }
        assert forall|x: int, i: int|
            0 <= x < n && 0 <= i < adj[x].len() && after.done[x] && (x != u || i < j + 1)
            implies after.dist[(#[trigger] adj[x][i]).node as int] <= after.dist[x]
            + adj[x][i].weight by {
            assert(st.done[x]);
            if x == u && i == j {
            } else {
                assert(st.dist[adj[x][i].node as int] <= st.dist[x] + adj[x][i].weight);
            }
        }
        assert forall|v: int| 0 <= v < n && #[trigger] after.dist[v] < UNREACHED implies after.dist[v]
            <= u16::MAX * count_true(after.done) by {
            if v != t {
                assert(st.dist[v] < UNREACHED);
            }
        }
        assert forall|v: int| 0 <= v < n && #[trigger] after.done[v] implies after.dist[v]
            < UNREACHED by {
            assert(st.done[v]);
        }
        assert forall|x: int| 0 <= x < n && #[trigger] after.done[x] implies after.dist[x]
            <= after.dist[u] by {
            assert(st.done[x]);
        }
    } else {
        assert forall|x: int, i: int|
            0 <= x < n && 0 <= i < adj[x].len() && st.done[x] && (x != u || i < j + 1)
            implies st.dist[(#[trigger] adj[x][i]).node as int] <= st.dist[x]
            + adj[x][i].weight by {
            if x == u && i == j {
            } else {
                assert(st.dist[adj[x][i].node as int] <= st.dist[x] + adj[x][i].weight);
            }
        }
    }
}

/// Once every edge of `u` is relaxed, nothing is excepted any more.
pub proof fn lemma_relaxed(adj: Seq<Seq<Neighbor>>, s: int, st: Search, u: int)
    requires
        0 <= u < adj.len(),
        relaxing(adj, s, st, u, adj[u].len() as int),
    ensures
        settled(adj, s, st),
{
    let n = adj.len();
    assert forall|x: int, i: int|
        0 <= x < n && 0 <= i < adj[x].len() && st.done[x] && (x != -1 || i < 0)
        implies st.dist[(#[trigger] adj[x][i]).node as int] <= st.dist[x] + adj[x][i].weight by {
        assert(x != u || i < adj[u].len());
    }
}

/// With `m` between the settled and the unsettled distances, no walk from the
/// start is lighter than the distance of its end if that is settled, or than
/// `m` if it is not.
pub proof fn lemma_lower_bound(
    adj: Seq<Seq<Neighbor>>,
    s: int,
    st: Search,
    m: int,
    t: int,
    p: Seq<Hop>,
)
    requires
        settled(adj, s, st),
        is_walk(adj, s, t, p),
        forall|x: int| 0 <= x < adj.len() && #[trigger] st.done[x] ==> st.dist[x] <= m,
        forall|y: int| 0 <= y < adj.len() && !#[trigger] st.done[y] ==> m <= st.dist[y],
    ensures
        0 <= t < adj.len(),
        st.done[t] ==> st.dist[t] <= walk_weight(adj, p),
        !st.done[t] ==> m <= walk_weight(adj, p),
    decreases p.len(),
{
    if p.len() == 0 {
        if !st.done[s] {
            assert(m <= st.dist[s]);
        }
    } else {
        let h = p.last();
        lemma_lower_bound(adj, s, st, m, h.from, p.drop_last());
        let e = adj[h.from][h.slot];
        assert(e.node == t);
        if st.done[h.from] {
            assert(st.dist[t] <= st.dist[h.from] + e.weight);
            if !st.done[t] {
                assert(m <= st.dist[t]);
            }
        } else {
            if st.done[t] {
                assert(st.dist[t] <= m);
            }
        }
    }
}

/// The closest unsettled node already has its final distance.
pub proof fn lemma_closest_is_final(adj: Seq<Seq<Neighbor>>, s: int, st: Search, u: int)
    requires
        settled(adj, s, st),
        is_closest(st, u),
    ensures
        crate::graph::is_shortest(adj, s, u, st.dist[u] as int),
{
    let m = st.dist[u] as int;
    assert(is_walk(adj, s, u, st.paths[u]) && walk_weight(adj, st.paths[u]) == m);
    assert forall|p: Seq<Hop>| #[trigger] is_walk(adj, s, u, p) implies m <= walk_weight(
        adj,
        p,
    ) by {
        assert forall|x: int| 0 <= x < adj.len() && #[trigger] st.done[x] implies st.dist[x]
            <= m by {
            assert(!st.done[u]);
        }
        lemma_lower_bound(adj, s, st, m, u, p);
    }
}

/// When no unsettled node is reached, every walk from the start ends in a
/// settled node.
pub proof fn lemma_walks_stay_settled(
    adj: Seq<Seq<Neighbor>>,
    s: int,
    st: Search,
    t: int,
    p: Seq<Hop>,
)
    requires
        settled(adj, s, st),
        is_walk(adj, s, t, p),
        forall|y: int| 0 <= y < adj.len() && !#[trigger] st.done[y] ==> st.dist[y] == UNREACHED,
    ensures
        0 <= t < adj.len(),
        st.done[t],
    decreases p.len(),
{
    if p.len() == 0 {
        if !st.done[s] {
            assert(st.dist[s] == UNREACHED);
        }
    } else {
        let h = p.last();
        lemma_walks_stay_settled(adj, s, st, h.from, p.drop_last());
        let e = adj[h.from][h.slot];
        assert(st.dist[t] <= st.dist[h.from] + e.weight);
        lemma_count_bounded(st.done);
        let c = count_true(st.done) as int;
        assert(u16::MAX * c <= u16::MAX * u16::MAX) by (nonlinear_arith)
            requires
                0 <= c <= u16::MAX,
        ;
        assert(st.dist[h.from] < UNREACHED);
        if !st.done[t] {
            assert(st.dist[t] == UNREACHED);
        }
    }
}

/// When no unsettled node is reached, an unsettled node cannot be reached at all.
pub proof fn lemma_exhausted(adj: Seq<Seq<Neighbor>>, s: int, st: Search, t: int)
    requires
        settled(adj, s, st),
        forall|y: int| 0 <= y < adj.len() && !#[trigger] st.done[y] ==> st.dist[y] == UNREACHED,
        0 <= t < adj.len(),
        !st.done[t],
    ensures
        crate::graph::no_walk(adj, s, t),
{
    assert forall|p: Seq<Hop>| !#[trigger] is_walk(adj, s, t, p) by {
        if is_walk(adj, s, t, p) {
            lemma_walks_stay_settled(adj, s, st, t, p);
        }
    }
}

} // verus!
