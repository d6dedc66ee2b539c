//! Walks through a matrix graph, called routes here, and what holds of them.
//!
//! A route is a non-empty sequence of nodes in which each node has an edge to
//! the next. Its weight is the sum of the weights of those edges.

use vstd::prelude::*;
use vstd::set_lib::{lemma_int_range, lemma_len_subset, set_int_range};
use crate::matrix::{INFINITE, is_graph};

verus! {

/// The weight of the edge from node `i` of `p` to the next.
pub open spec fn hop_weight(m: Seq<Seq<i64>>, p: Seq<int>, i: int) -> i64 {
    m[p[i]][p[i + 1]]
}

/// `p` leads from `u` to `v` along edges of `m`.
pub open spec fn is_route(m: Seq<Seq<i64>>, u: int, v: int, p: Seq<int>) -> bool {
    &&& p.len() >= 1
    &&& p[0] == u
    &&& p[p.len() - 1] == v
    &&& forall|i: int| 0 <= i < p.len() ==> 0 <= #[trigger] p[i] < m.len()
    &&& forall|i: int| 0 <= i < p.len() - 1 ==> #[trigger] hop_weight(m, p, i) < INFINITE
}

/// The sum of the weights of the edges of `p`.
pub open spec fn route_weight(m: Seq<Seq<i64>>, p: Seq<int>) -> int
    decreases p.len(),
{
    if p.len() <= 1 {
        0
    } else {
        route_weight(m, p.drop_last()) + hop_weight(m, p, p.len() - 2)
    }
}

/// No node occurs twice among the nodes of `p` other than its two ends.
pub open spec fn interior_distinct(p: Seq<int>) -> bool {
    forall|i: int, j: int| 0 < i < j < p.len() - 1 ==> #[trigger] p[i] != #[trigger] p[j]
}

/// Every node of `p` other than its two ends is below `k`.
pub open spec fn interior_below(p: Seq<int>, k: int) -> bool {
    forall|i: int| 0 < i < p.len() - 1 ==> #[trigger] p[i] < k
}

/// `p` is a route from `u` to `v` that passes no node twice on its way.
pub open spec fn is_simple_route(m: Seq<Seq<i64>>, u: int, v: int, p: Seq<int>) -> bool {
    is_route(m, u, v, p) && interior_distinct(p)
}

/// Some route leads from `u` to `v`.
pub open spec fn reachable(m: Seq<Seq<i64>>, u: int, v: int) -> bool {
    exists|p: Seq<int>| is_route(m, u, v, p)
}

/// `d` is the weight of some route from `u` to `v`, and no route from `u` to
/// `v` is lighter.
pub open spec fn is_least_weight(m: Seq<Seq<i64>>, u: int, v: int, d: int) -> bool {
    &&& exists|p: Seq<int>| #[trigger] is_route(m, u, v, p) && route_weight(m, p) == d
    &&& forall|p: Seq<int>| #[trigger] is_route(m, u, v, p) ==> d <= route_weight(m, p)
}

/// Some route from `c` back to `c` has negative weight.
pub open spec fn on_negative_cycle(m: Seq<Seq<i64>>, c: int) -> bool {
    exists|z: Seq<int>| #[trigger] is_route(m, c, c, z) && route_weight(m, z) < 0
}

/// Some route from `u` to `v` passes a node that lies on a negative cycle.
pub open spec fn passes_negative_cycle(m: Seq<Seq<i64>>, u: int, v: int) -> bool {
    exists|c: int| reachable(m, u, c) && #[trigger] on_negative_cycle(m, c) && reachable(m, c, v)
}

/// Some route from `u` to `v` is lighter than `bound`.
pub open spec fn has_route_below(m: Seq<Seq<i64>>, u: int, v: int, bound: int) -> bool {
    exists|p: Seq<int>| #[trigger] is_route(m, u, v, p) && route_weight(m, p) < bound
}

/// The routes from `u` to `v` have no least weight: whatever the bound, one
/// of them is lighter.
pub open spec fn unbounded_below(m: Seq<Seq<i64>>, u: int, v: int) -> bool {
    forall|bound: int| #[trigger] has_route_below(m, u, v, bound)
}

/// The part of a route up to its node `i` is a route.
pub proof fn lemma_prefix(m: Seq<Seq<i64>>, u: int, v: int, p: Seq<int>, i: int)
    requires
        is_route(m, u, v, p),
        0 <= i < p.len(),
    ensures
        is_route(m, u, p[i], p.take(i + 1)),
{
    let q = p.take(i + 1);
    assert forall|k: int| 0 <= k < q.len() - 1 implies #[trigger] hop_weight(m, q, k)
        < INFINITE by {
        assert(hop_weight(m, p, k) < INFINITE);
    }
    assert forall|k: int| 0 <= k < q.len() implies 0 <= #[trigger] q[k] < m.len() by {
        assert(q[k] == p[k]);
    }
}

/// The part of a route from its node `i` on is a route.
pub proof fn lemma_suffix(m: Seq<Seq<i64>>, u: int, v: int, p: Seq<int>, i: int)
    requires
        is_route(m, u, v, p),
        0 <= i < p.len(),
    ensures
        is_route(m, p[i], v, p.skip(i)),
{
    let q = p.skip(i);
    assert forall|k: int| 0 <= k < q.len() - 1 implies #[trigger] hop_weight(m, q, k)
        < INFINITE by {
        assert(hop_weight(m, p, k + i) < INFINITE);
    }
    assert forall|k: int| 0 <= k < q.len() implies 0 <= #[trigger] q[k] < m.len() by {
        assert(q[k] == p[k + i]);
    }
}

/// Two routes that meet in `k` join into one, whose weight is the sum of theirs.
pub proof fn lemma_join(m: Seq<Seq<i64>>, u: int, k: int, v: int, p: Seq<int>, q: Seq<int>)
    requires
        is_route(m, u, k, p),
        is_route(m, k, v, q),
    ensures
        is_route(m, u, v, p + q.skip(1)),
        route_weight(m, p + q.skip(1)) == route_weight(m, p) + route_weight(m, q),
    decreases q.len(),
{
    let r = p + q.skip(1);
    if q.len() == 1 {
        assert(r == p);
    } else {
        let front = q.drop_last();
        let last = q.len() - 1;
        lemma_prefix(m, k, v, q, last - 1);
        assert(q.take(last) == front);
        lemma_join(m, u, k, q[last - 1], p, front);
        let shorter = p + front.skip(1);
        assert(r.drop_last() == shorter);
        assert(r[r.len() - 1] == q[last]);
        assert(r[r.len() - 2] == q[last - 1]) by {
            if q.len() == 2 {
                assert(r[r.len() - 2] == p[p.len() - 1]);
            } else {
                assert(r[r.len() - 2] == q.skip(1)[last - 2]);
            }
        }
        assert(hop_weight(m, r, r.len() - 2) == hop_weight(m, q, last - 1));
        assert forall|i: int| 0 <= i < r.len() implies 0 <= #[trigger] r[i] < m.len() by {
            if i < r.len() - 1 {
                assert(r[i] == shorter[i]);
            }
        }
        assert forall|i: int| 0 <= i < r.len() - 1 implies #[trigger] hop_weight(m, r, i)
            < INFINITE by {
            if i < r.len() - 2 {
                assert(hop_weight(m, shorter, i) < INFINITE);
                assert(r[i] == shorter[i] && r[i + 1] == shorter[i + 1]);
            } else {
                assert(hop_weight(m, q, last - 1) < INFINITE);
            }
        }
    }
}

/// A route splits at any of its nodes into two routes whose weights add up.
pub proof fn lemma_split(m: Seq<Seq<i64>>, u: int, v: int, p: Seq<int>, i: int)
    requires
        is_route(m, u, v, p),
        0 <= i < p.len(),
    ensures
        is_route(m, u, p[i], p.take(i + 1)),
        is_route(m, p[i], v, p.skip(i)),
        route_weight(m, p) == route_weight(m, p.take(i + 1)) + route_weight(m, p.skip(i)),
{
    lemma_prefix(m, u, v, p, i);
    lemma_suffix(m, u, v, p, i);
    lemma_join(m, u, p[i], v, p.take(i + 1), p.skip(i));
    assert(p.take(i + 1) + p.skip(i).skip(1) == p);
}

/// The weight of a route is bounded by its length.
pub proof fn lemma_weight_bounds(m: Seq<Seq<i64>>, u: int, v: int, p: Seq<int>)
    requires
        is_graph(m),
        is_route(m, u, v, p),
    ensures
        (p.len() - 1) * i32::MIN <= route_weight(m, p) <= (p.len() - 1) * i32::MAX,
    decreases p.len(),
{
    if p.len() > 1 {
        let last = p.len() - 1;
        lemma_prefix(m, u, v, p, last - 1);
        assert(p.take(last) == p.drop_last());
        lemma_weight_bounds(m, u, p[last - 1], p.drop_last());
        assert(hop_weight(m, p, last - 1) < INFINITE);
        assert(0 <= p[last - 1] < m.len() && 0 <= p[last] < m.len());
        let w = m[p[last - 1]][p[last]];
        assert(w == INFINITE || i32::MIN <= w <= i32::MAX);
    }
}

/// A route that passes no node twice is no longer than the graph allows.
pub proof fn lemma_simple_is_short(m: Seq<Seq<i64>>, u: int, v: int, p: Seq<int>, k: int)
    requires
        is_simple_route(m, u, v, p),
        interior_below(p, k),
        0 <= k,
    ensures
        p.len() <= k + 2,
{
    if p.len() > 2 {
        let inner = p.subrange(1, p.len() - 1);
        assert forall|i: int, j: int|
            0 <= i < inner.len() && 0 <= j < inner.len() && i != j implies inner[i]
            != inner[j] by {
            if i < j {
                assert(p[i + 1] != p[j + 1]);
            } else {
                assert(p[j + 1] != p[i + 1]);
            }
        }
        inner.unique_seq_to_set();
        lemma_int_range(0, k);
        assert forall|x: int| inner.to_set().contains(x) implies set_int_range(0, k).contains(
            x,
        ) by {
            let i = choose|i: int| 0 <= i < inner.len() && inner[i] == x;
            assert(p[i + 1] == x);
        }
        lemma_len_subset(inner.to_set(), set_int_range(0, k));
    }
}

/// A route that passes no node twice weighs less than the sentinel, and no
/// less than the floor.
pub proof fn lemma_simple_is_finite(m: Seq<Seq<i64>>, u: int, v: int, p: Seq<int>)
    requires
        is_graph(m),
        is_simple_route(m, u, v, p),
    ensures
        crate::matrix::FLOOR < route_weight(m, p) < INFINITE,
{
    assert forall|i: int| 0 < i < p.len() - 1 implies #[trigger] p[i] < m.len() by {}
    lemma_simple_is_short(m, u, v, p, m.len() as int);
    lemma_weight_bounds(m, u, v, p);
    let len = p.len() as int;
    assert((len - 1) * i32::MAX <= (u16::MAX + 1) * i32::MAX) by (nonlinear_arith)
        requires
            1 <= len <= u16::MAX + 2,
    ;
    assert((len - 1) * i32::MIN >= (u16::MAX + 1) * i32::MIN) by (nonlinear_arith)
        requires
            1 <= len <= u16::MAX + 2,
    ;
}

/// Cutting loops out of a route. The result is a route `q` between the same
/// ends that passes no node twice, an index `i` and a loop `z`. Either `q` is
/// no heavier than `p`, or `z` is a negative loop through node `i` of `p`
/// that passes no node twice.
pub proof fn lemma_cut_loops(m: Seq<Seq<i64>>, u: int, v: int, p: Seq<int>) -> (r: (
    Seq<int>,
    int,
    Seq<int>,
))
    requires
        is_route(m, u, v, p),
    ensures
        is_simple_route(m, u, v, r.0),
        route_weight(m, r.0) <= route_weight(m, p) || {
            &&& 0 <= r.1 < p.len()
            &&& is_simple_route(m, p[r.1], p[r.1], r.2)
            &&& route_weight(m, r.2) < 0
        },
    decreases p.len(),
{
    if interior_distinct(p) {
        return (p, 0, p);
    }
    let (i, j) = choose|i: int, j: int| 0 < i < j < p.len() - 1 && p[i] == p[j];
    lemma_split(m, u, v, p, i);
    let tail = p.skip(i);
    lemma_split(m, p[i], v, tail, j - i);
    let cycle = tail.take(j - i + 1);
    assert(tail[j - i] == p[j]);
    assert(tail.skip(j - i) == p.skip(j));
    lemma_join(m, u, p[i], v, p.take(i + 1), p.skip(j));
    let rest = p.take(i + 1) + p.skip(j).skip(1);
    let (q, ri, rz) = lemma_cut_loops(m, u, v, rest);
    if route_weight(m, cycle) >= 0 {
        let at = if ri <= i {
            ri
        } else {
            ri + (j - i)
        };
        if 0 <= ri <= i {
            assert(rest[ri] == p[ri]);
        } else if i < ri < rest.len() {
            assert(rest[ri] == p.skip(j).skip(1)[ri - i - 1]);
        }
        (q, at, rz)
    } else {
        let (qc, ci, cz) = lemma_cut_loops(m, p[i], p[i], cycle);
        if route_weight(m, qc) <= route_weight(m, cycle) {
            (q, i, qc)
        } else {
            assert(0 <= ci < cycle.len());
            assert(cycle[ci] == p[i + ci]);
            (q, i + ci, cz)
        }
    }
}

/// Going round a negative loop `k` times gives a loop of weight `-k` or less.
pub proof fn lemma_go_round(m: Seq<Seq<i64>>, c: int, z: Seq<int>, k: nat) -> (r: Seq<int>)
    requires
        is_route(m, c, c, z),
        route_weight(m, z) < 0,
    ensures
        is_route(m, c, c, r),
        route_weight(m, r) <= -k,
    decreases k,
{
    if k == 0 {
        let r = seq![c];
        assert(is_route(m, c, c, r));
        r
    } else {
        let once = lemma_go_round(m, c, z, (k - 1) as nat);
        lemma_join(m, c, c, c, once, z);
        once + z.skip(1)
    }
}

/// Where a route passes a node on a negative cycle, routes are lighter than any bound.
pub proof fn lemma_negative_cycle_unbounded(m: Seq<Seq<i64>>, u: int, v: int)
    requires
        passes_negative_cycle(m, u, v),
    ensures
        unbounded_below(m, u, v),
{
    let c = choose|c: int|
        reachable(m, u, c) && #[trigger] on_negative_cycle(m, c) && reachable(m, c, v);
    let a = choose|a: Seq<int>| is_route(m, u, c, a);
    let b = choose|b: Seq<int>| is_route(m, c, v, b);
    let z = choose|z: Seq<int>| #[trigger] is_route(m, c, c, z) && route_weight(m, z) < 0;
    assert forall|bound: int| #[trigger] has_route_below(m, u, v, bound) by {
        let need = route_weight(m, a) + route_weight(m, b) - bound + 1;
        let k: nat = if need > 0 {
            need as nat
        } else {
            0
        };
        let round = lemma_go_round(m, c, z, k);
        lemma_join(m, u, c, c, a, round);
        let first = a + round.skip(1);
        lemma_join(m, u, c, v, first, b);
        let all = first + b.skip(1);
        assert(is_route(m, u, v, all) && route_weight(m, all) < bound);
    }
}

} // verus!
