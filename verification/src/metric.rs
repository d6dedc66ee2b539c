//! What holds of the distance matrix of every graph.

use vstd::prelude::*;
use crate::all_pairs::{
    Classification, classify_spec, has_negative_pivot, lemma_cell_is_least, lemma_closure_tracks,
    lemma_finite_iff_reachable, lemma_pivot_iff_cycle,
};
use crate::closure::{
    by_way_of, closure, has_route_within, relax_cell, relax_rounds, relax_row, relax_rows, within,
};
use crate::matrix::{INFINITE, is_graph};
use crate::routes::{
    is_route, lemma_join, on_negative_cycle, passes_negative_cycle, reachable, route_weight,
};

verus! {

/// Computing the distances of one graph twice gives the same matrix.
pub proof fn lemma_distances_repeatable(
    graph: Seq<Seq<i64>>,
    once: Seq<Seq<i64>>,
    again: Seq<Seq<i64>>,
)
    requires
        once == closure(graph),
        again == closure(graph),
    ensures
        once == again,
{
}

/// The triangle inequality: where the cells from `u` to `k` and from `k` to
/// `v` are finite and the pair `(u, v)` is not classified as negative
/// infinity, the distance from `u` to `v` is at most the sum of the other two.
pub proof fn lemma_triangle(src: Seq<Seq<i64>>, u: int, v: int, k: int)
    requires
        is_graph(src),
        0 <= u < src.len(),
        0 <= v < src.len(),
        0 <= k < src.len(),
        closure(src)[u][k] < INFINITE,
        closure(src)[k][v] < INFINITE,
        classify_spec(closure(src), u, v) != Classification::NegativeInfinity,
    ensures
        closure(src)[u][v] <= closure(src)[u][k] + closure(src)[k][v],
        classify_spec(closure(src), u, v) == Classification::Distance(closure(src)[u][v]),
{
    lemma_closure_tracks(src);
    lemma_pivot_iff_cycle(src, u, v);
    let d = closure(src);
    assert(has_route_within(src, u, k, d[u][k] as int));
    assert(has_route_within(src, k, v, d[k][v] as int));
    let p = choose|p: Seq<int>| #[trigger] is_route(src, u, k, p) && route_weight(src, p) <= d[u][k];
    let q = choose|q: Seq<int>| #[trigger] is_route(src, k, v, q) && route_weight(src, q) <= d[k][v];
    lemma_join(src, u, k, v, p, q);
    assert(is_route(src, u, v, p + q.skip(1)));
    assert(reachable(src, u, v));
    lemma_finite_iff_reachable(src, u, v);
    assert(!has_negative_pivot(d, u, v, d.len() as int));
    lemma_cell_is_least(src, u, v);
}

/// The distance from a node to itself is zero unless the node lies on a
/// negative cycle.
pub proof fn lemma_zero_self_distance(src: Seq<Seq<i64>>, u: int)
    requires
        is_graph(src),
        0 <= u < src.len(),
        !on_negative_cycle(src, u),
    ensures
        closure(src)[u][u] == 0,
{
    lemma_closure_tracks(src);
    let d = closure(src);
    let stay = seq![u];
    assert(crate::routes::is_simple_route(src, u, u, stay));
    assert(crate::routes::interior_below(
        stay,
        crate::closure::nodes_used(src.len() as int, 0, 0, u, u),
    ));
    assert(d[u][u] <= route_weight(src, stay));
    if d[u][u] < 0 {
        assert(has_route_within(src, u, u, d[u][u] as int));
        let z = choose|z: Seq<int>| #[trigger]
            is_route(src, u, u, z) && route_weight(src, z) <= d[u][u];
        assert(is_route(src, u, u, z) && route_weight(src, z) < 0);
    }
}

/// Every pair with a walk through a node on a negative cycle is classified
/// as negative infinity.
pub proof fn lemma_negative_cycle_classified(src: Seq<Seq<i64>>, a: int, c: int, b: int)
    requires
        is_graph(src),
        on_negative_cycle(src, c),
        reachable(src, a, c),
        reachable(src, c, b),
    ensures
        classify_spec(closure(src), a, b) == Classification::NegativeInfinity,
{
    let p = choose|p: Seq<int>| is_route(src, a, c, p);
    let q = choose|q: Seq<int>| is_route(src, c, b, q);
    assert(0 <= p[0] < src.len());
    assert(0 <= q[q.len() - 1] < src.len());
    lemma_join(src, a, c, b, p, q);
    assert(is_route(src, a, b, p + q.skip(1)));
    lemma_finite_iff_reachable(src, a, b);
    lemma_pivot_iff_cycle(src, a, b);
    lemma_closure_tracks(src);
}

/// Every three cells of `d` that hold distances obey the triangle inequality.
pub open spec fn is_closed(d: Seq<Seq<i64>>) -> bool {
    forall|a: int, b: int, k: int|
        0 <= a < d.len() && 0 <= b < d.len() && 0 <= k < d.len() && #[trigger] d[a][k] < INFINITE
            && #[trigger] d[k][b] < INFINITE ==> d[a][b] <= d[a][k] + d[k][b]
}

proof fn lemma_closed_row(d: Seq<Seq<i64>>, k: int, a: int, b: nat)
    requires
        within(d, d.len() as int),
        is_closed(d),
        0 <= k < d.len(),
        0 <= a < d.len(),
        b <= d.len(),
    ensures
        relax_row(d, k, a, b) == d,
    decreases b,
{
    if b > 0 {
        lemma_closed_row(d, k, a, (b - 1) as nat);
        assert(d[a].len() == d.len() && d[k].len() == d.len());
        if d[a][k] < INFINITE && d[k][b - 1] < INFINITE {
            assert(d[a][b - 1] <= d[a][k] + d[k][b - 1]);
        }
        assert(by_way_of(d, k, a, b - 1) >= d[a][b - 1]);
        assert(relax_cell(d, k, a, b - 1) == d);
    }
}

proof fn lemma_closed_rows(d: Seq<Seq<i64>>, k: int, a: nat)
    requires
        within(d, d.len() as int),
        is_closed(d),
        0 <= k < d.len(),
        a <= d.len(),
    ensures
        relax_rows(d, k, a) == d,
    decreases a,
{
    if a > 0 {
        lemma_closed_rows(d, k, (a - 1) as nat);
        lemma_closed_row(d, k, a - 1, d.len());
    }
}

proof fn lemma_closed_rounds(d: Seq<Seq<i64>>, k: nat)
    requires
        within(d, d.len() as int),
        is_closed(d),
        k <= d.len(),
    ensures
        relax_rounds(d, k) == d,
    decreases k,
{
    if k > 0 {
        lemma_closed_rounds(d, (k - 1) as nat);
        lemma_closed_rows(d, k - 1, d.len());
    }
}

/// Where no node lies on a negative cycle, every three finite cells obey the
/// triangle inequality.
proof fn lemma_closed_pair(src: Seq<Seq<i64>>, a: int, b: int, k: int)
    requires
        is_graph(src),
        forall|c: int| !#[trigger] on_negative_cycle(src, c),
        0 <= a < src.len(),
        0 <= b < src.len(),
        0 <= k < src.len(),
        closure(src)[a][k] < INFINITE,
        closure(src)[k][b] < INFINITE,
    ensures
        closure(src)[a][b] <= closure(src)[a][k] + closure(src)[k][b],
{
    lemma_closure_tracks(src);
    lemma_pivot_iff_cycle(src, a, b);
    if passes_negative_cycle(src, a, b) {
        let c = choose|c: int|
            reachable(src, a, c) && #[trigger] on_negative_cycle(src, c) && reachable(src, c, b);
        assert(false);
    }
    lemma_triangle(src, a, b, k);
}

/// Where no node lies on a negative cycle, the distance matrix is closed,
/// and relaxing it once more changes nothing.
pub proof fn lemma_distances_settled(src: Seq<Seq<i64>>)
    requires
        is_graph(src),
        forall|c: int| !#[trigger] on_negative_cycle(src, c),
    ensures
        is_closed(closure(src)),
        closure(closure(src)) == closure(src),
{
    lemma_closure_tracks(src);
    let d = closure(src);
    let n = src.len() as int;
    assert forall|a: int, b: int, k: int|
        0 <= a < d.len() && 0 <= b < d.len() && 0 <= k < d.len() && #[trigger] d[a][k] < INFINITE
            && #[trigger] d[k][b] < INFINITE implies d[a][b] <= d[a][k] + d[k][b] by {
        lemma_closed_pair(src, a, b, k);
    }
    lemma_closed_rounds(d, d.len());
}

} // verus!
