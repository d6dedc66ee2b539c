//! Ways to tell what the answer to a query is without running a solver: a
//! potential that no edge undercuts shows that a walk is a lightest one, and
//! a set of nodes that no edge leaves shows that a node cannot be reached.

use vstd::prelude::*;
use crate::graph::{Hop, Neighbor, is_shortest, is_walk, no_walk, walk_weight};
use crate::matrix::INFINITE;
use crate::routes::{
    hop_weight, is_least_weight, is_route, lemma_prefix, on_negative_cycle, passes_negative_cycle,
    reachable, route_weight,
};

verus! {

/// No edge of `adj` is lighter than the difference of `potential` between its ends.
pub open spec fn is_potential(adj: Seq<Seq<Neighbor>>, potential: Seq<int>) -> bool {
    &&& potential.len() == adj.len()
    &&& forall|u: int, i: int|
        0 <= u < adj.len() && 0 <= i < adj[u].len() && (#[trigger] adj[u][i]).node < adj.len()
            ==> potential[adj[u][i].node as int] <= potential[u] + adj[u][i].weight
}

/// No edge of `adj` leads from a node inside the set to a node outside it.
pub open spec fn is_closed_set(adj: Seq<Seq<Neighbor>>, inside: Seq<bool>) -> bool {
    &&& inside.len() == adj.len()
    &&& forall|u: int, i: int|
        0 <= u < adj.len() && 0 <= i < adj[u].len() && inside[u] && (#[trigger] adj[u][i]).node
            < adj.len() ==> inside[adj[u][i].node as int]
}

/// No walk is lighter than the difference of a potential between its ends.
pub proof fn lemma_walk_above_potential(
    adj: Seq<Seq<Neighbor>>,
    potential: Seq<int>,
    s: int,
    t: int,
    p: Seq<Hop>,
)
    requires
        is_potential(adj, potential),
        is_walk(adj, s, t, p),
        0 <= t < adj.len(),
    ensures
        potential[t] - potential[s] <= walk_weight(adj, p),
    decreases p.len(),
{
    if p.len() > 0 {
        let h = p.last();
        lemma_walk_above_potential(adj, potential, s, h.from, p.drop_last());
        assert(adj[h.from][h.slot].node == t);
    }
}

/// A walk that weighs the difference of a potential between its ends is a
/// lightest walk.
pub proof fn lemma_shortest_by_potential(
    adj: Seq<Seq<Neighbor>>,
    potential: Seq<int>,
    s: int,
    t: int,
    p: Seq<Hop>,
)
    requires
        is_potential(adj, potential),
        is_walk(adj, s, t, p),
        0 <= t < adj.len(),
        walk_weight(adj, p) == potential[t] - potential[s],
    ensures
        is_shortest(adj, s, t, potential[t] - potential[s]),
{
    assert forall|q: Seq<Hop>| #[trigger] is_walk(adj, s, t, q) implies potential[t] - potential[s]
        <= walk_weight(adj, q) by {
        lemma_walk_above_potential(adj, potential, s, t, q);
    }
}

/// A walk that starts inside a closed set ends inside it.
pub proof fn lemma_walk_stays_inside(
    adj: Seq<Seq<Neighbor>>,
    inside: Seq<bool>,
    s: int,
    t: int,
    p: Seq<Hop>,
)
    requires
        is_closed_set(adj, inside),
        is_walk(adj, s, t, p),
        0 <= t < adj.len(),
        inside[s],
    ensures
        inside[t],
    decreases p.len(),
{
    if p.len() > 0 {
        let h = p.last();
        lemma_walk_stays_inside(adj, inside, s, h.from, p.drop_last());
        assert(adj[h.from][h.slot].node == t);
    }
}

/// A node outside a closed set cannot be reached from a node inside it.
pub proof fn lemma_unreachable_by_closed_set(
    adj: Seq<Seq<Neighbor>>,
    inside: Seq<bool>,
    s: int,
    t: int,
)
    requires
        is_closed_set(adj, inside),
        0 <= s < adj.len(),
        0 <= t < adj.len(),
        inside[s],
        !inside[t],
    ensures
        no_walk(adj, s, t),
{
    assert forall|p: Seq<Hop>| !#[trigger] is_walk(adj, s, t, p) by {
        if is_walk(adj, s, t, p) {
            lemma_walk_stays_inside(adj, inside, s, t, p);
        }
    }
}

/// No edge of the matrix `m` leads from a node inside the set to a node outside it.
pub open spec fn is_closed_matrix_set(m: Seq<Seq<i64>>, inside: Seq<bool>) -> bool {
    &&& inside.len() == m.len()
    &&& forall|u: int, v: int|
        0 <= u < m.len() && 0 <= v < m.len() && inside[u] && #[trigger] m[u][v] < INFINITE
            ==> inside[v]
}

/// The set is closed, and no edge of the matrix `m` that starts inside it is
/// lighter than the difference of `potential` between its ends.
pub open spec fn is_matrix_potential(m: Seq<Seq<i64>>, potential: Seq<int>, inside: Seq<bool>)
    -> bool {
    &&& potential.len() == m.len()
    &&& is_closed_matrix_set(m, inside)
    &&& forall|u: int, v: int|
        0 <= u < m.len() && 0 <= v < m.len() && inside[u] && #[trigger] m[u][v] < INFINITE
            ==> potential[v] <= potential[u] + m[u][v]
}

/// A route that starts inside a closed set ends inside it.
pub proof fn lemma_route_stays_inside(m: Seq<Seq<i64>>, inside: Seq<bool>, u: int, v: int, p: Seq<int>)
    requires
        is_closed_matrix_set(m, inside),
        is_route(m, u, v, p),
        inside[u],
    ensures
        inside[v],
    decreases p.len(),
{
    if p.len() > 1 {
        let last = p.len() - 1;
        lemma_prefix(m, u, v, p, last - 1);
        assert(p.take(last) == p.drop_last());
        lemma_route_stays_inside(m, inside, u, p[last - 1], p.drop_last());
        assert(hop_weight(m, p, last - 1) < INFINITE);
        assert(0 <= p[last - 1] < m.len() && 0 <= p[last] < m.len());
    }
}

/// A node outside a closed set cannot be reached from a node inside it.
pub proof fn lemma_unreachable_by_closed_matrix_set(
    m: Seq<Seq<i64>>,
    inside: Seq<bool>,
    u: int,
    v: int,
)
    requires
        is_closed_matrix_set(m, inside),
        0 <= u < m.len(),
        0 <= v < m.len(),
        inside[u],
        !inside[v],
    ensures
        !reachable(m, u, v),
{
    if reachable(m, u, v) {
        let p = choose|p: Seq<int>| is_route(m, u, v, p);
        lemma_route_stays_inside(m, inside, u, v, p);
    }
}

/// No route that starts inside the set of a potential is lighter than the
/// difference of the potential between its ends.
pub proof fn lemma_route_above_potential(
    m: Seq<Seq<i64>>,
    potential: Seq<int>,
    inside: Seq<bool>,
    u: int,
    v: int,
    p: Seq<int>,
)
    requires
        is_matrix_potential(m, potential, inside),
        is_route(m, u, v, p),
        inside[u],
    ensures
        potential[v] - potential[u] <= route_weight(m, p),
    decreases p.len(),
{
    if p.len() > 1 {
        let last = p.len() - 1;
        lemma_prefix(m, u, v, p, last - 1);
        assert(p.take(last) == p.drop_last());
        lemma_route_above_potential(m, potential, inside, u, p[last - 1], p.drop_last());
        lemma_route_stays_inside(m, inside, u, p[last - 1], p.drop_last());
        assert(hop_weight(m, p, last - 1) < INFINITE);
        assert(0 <= p[last - 1] < m.len() && 0 <= p[last] < m.len());
    }
}

/// A route that starts inside the set of a potential and weighs the
/// difference of the potential between its ends is a lightest route, and no
/// route between these ends passes a negative cycle.
pub proof fn lemma_least_by_potential(
    m: Seq<Seq<i64>>,
    potential: Seq<int>,
    inside: Seq<bool>,
    u: int,
    v: int,
    p: Seq<int>,
)
    requires
        is_matrix_potential(m, potential, inside),
        is_route(m, u, v, p),
        inside[u],
        route_weight(m, p) == potential[v] - potential[u],
    ensures
        is_least_weight(m, u, v, potential[v] - potential[u]),
        !passes_negative_cycle(m, u, v),
{
    assert forall|q: Seq<int>| #[trigger] is_route(m, u, v, q) implies potential[v] - potential[u]
        <= route_weight(m, q) by {
        lemma_route_above_potential(m, potential, inside, u, v, q);
    }
    if passes_negative_cycle(m, u, v) {
        let c = choose|c: int|
            reachable(m, u, c) && #[trigger] on_negative_cycle(m, c) && reachable(m, c, v);
        let a = choose|a: Seq<int>| is_route(m, u, c, a);
        let z = choose|z: Seq<int>| #[trigger] is_route(m, c, c, z) && route_weight(m, z) < 0;
        lemma_route_stays_inside(m, inside, u, c, a);
        lemma_route_above_potential(m, potential, inside, c, c, z);
    }
}

} // verus!
