//! The all-pairs relaxation as a function on matrices, and what its result means.
//!
//! The relaxation runs in rounds, one per intermediate node `k`. A round
//! visits every cell `(a, b)` in row order and lowers it to the sum of the
//! cells `(a, k)` and `(k, b)` where that is smaller. It works in place, so
//! a cell may see values that the same round has already lowered.

use vstd::prelude::*;
use crate::matrix::{FLOOR, INFINITE, is_graph, is_square};
use crate::routes::{
    interior_below, is_route, is_simple_route, lemma_join, lemma_simple_is_finite, lemma_split,
    route_weight,
};

verus! {

/// The distance from `a` to `b` by way of `k`: the sum of the two parts,
/// raised to the floor; the sentinel where either part is missing.
pub open spec fn by_way_of(m: Seq<Seq<i64>>, k: int, a: int, b: int) -> i64 {
    if m[a][k] < INFINITE && m[k][b] < INFINITE {
        if m[a][k] + m[k][b] < FLOOR {
            FLOOR
        } else {
            (m[a][k] + m[k][b]) as i64
        }
    } else {
        INFINITE
    }
}

/// The matrix after cell `(a, b)` is relaxed by way of `k`.
pub open spec fn relax_cell(m: Seq<Seq<i64>>, k: int, a: int, b: int) -> Seq<Seq<i64>> {
    let c = by_way_of(m, k, a, b);
    if c < m[a][b] {
        m.update(a, m[a].update(b, c))
    } else {
        m
    }
}

/// The matrix after the first `b` cells of row `a` are relaxed by way of `k`.
pub open spec fn relax_row(m: Seq<Seq<i64>>, k: int, a: int, b: nat) -> Seq<Seq<i64>>
    decreases b,
{
    if b == 0 {
        m
    } else {
        relax_cell(relax_row(m, k, a, (b - 1) as nat), k, a, b - 1)
    }
}

/// The matrix after the first `a` rows are relaxed by way of `k`.
pub open spec fn relax_rows(m: Seq<Seq<i64>>, k: int, a: nat) -> Seq<Seq<i64>>
    decreases a,
{
    if a == 0 {
        m
    } else {
        let above = relax_rows(m, k, (a - 1) as nat);
        relax_row(above, k, a - 1, above.len())
    }
}

/// The matrix after the rounds for the first `k` nodes.
pub open spec fn relax_rounds(m: Seq<Seq<i64>>, k: nat) -> Seq<Seq<i64>>
    decreases k,
{
    if k == 0 {
        m
    } else {
        let before = relax_rounds(m, (k - 1) as nat);
        relax_rows(before, k - 1, before.len())
    }
}

/// The matrix after all rounds.
pub open spec fn closure(m: Seq<Seq<i64>>) -> Seq<Seq<i64>> {
    relax_rounds(m, m.len())
}

/// `m` is an `n` by `n` matrix of values between the floor and the sentinel.
pub open spec fn within(m: Seq<Seq<i64>>, n: int) -> bool {
    &&& is_square(m, n)
    &&& forall|u: int, v: int| 0 <= u < n && 0 <= v < n ==> FLOOR <= #[trigger] m[u][v] <= INFINITE
}

/// Relaxing a cell keeps the matrix square and its cells in range.
pub proof fn lemma_relax_cell_within(m: Seq<Seq<i64>>, n: int, k: int, a: int, b: int)
    requires
        within(m, n),
        0 <= k < n,
        0 <= a < n,
        0 <= b < n,
    ensures
        within(relax_cell(m, k, a, b), n),
{
    let after = relax_cell(m, k, a, b);
    assert forall|u: int, v: int| 0 <= u < n && 0 <= v < n implies FLOOR <= #[trigger] after[u][v]
        <= INFINITE by {
        assert(FLOOR <= m[u][v] <= INFINITE);
        assert(FLOOR <= m[a][b] <= INFINITE);
    }
    assert forall|u: int| 0 <= u < n implies (#[trigger] after[u]).len() == n by {
        assert(m[u].len() == n);
    }
}

/// Some route from `u` to `v` weighs `d` or less.
pub open spec fn has_route_within(src: Seq<Seq<i64>>, u: int, v: int, d: int) -> bool {
    exists|p: Seq<int>| #[trigger] is_route(src, u, v, p) && route_weight(src, p) <= d
}

/// How far the work on cell `(u, v)` has come when round `k` stands before
/// cell `(a, b)`: the cells before it are done with `k`, the others are not.
pub open spec fn nodes_used(k: int, a: int, b: int, u: int, v: int) -> int {
    if u < a || (u == a && v < b) {
        k + 1
    } else {
        k
    }
}

/// What holds of the matrix `m` when round `k` stands before cell `(a, b)`.
/// Every finite cell is no lighter than some route of the graph `src`, and
/// every cell is no heavier than any route that passes no node twice and
/// only nodes the cell is done with.
pub open spec fn tracks(src: Seq<Seq<i64>>, m: Seq<Seq<i64>>, k: int, a: int, b: int) -> bool {
    let n = src.len() as int;
    &&& is_graph(src)
    &&& within(m, n)
    &&& 0 <= k <= n
    &&& 0 <= a <= n
    &&& 0 <= b <= n
    &&& forall|u: int, v: int|
        0 <= u < n && 0 <= v < n && #[trigger] m[u][v] < INFINITE ==> has_route_within(
            src,
            u,
            v,
            m[u][v] as int,
        )
    &&& forall|u: int, v: int, p: Seq<int>|
        #[trigger] is_simple_route(src, u, v, p) && interior_below(p, nodes_used(k, a, b, u, v))
            ==> m[u][v] <= route_weight(src, p)
}

/// The matrix of a graph stands before the first cell of the first round.
pub proof fn lemma_tracks_start(src: Seq<Seq<i64>>)
    requires
        is_graph(src),
    ensures
        tracks(src, src, 0, 0, 0),
{
    let n = src.len() as int;
    assert(within(src, n));
    assert forall|u: int, v: int|
        0 <= u < n && 0 <= v < n && #[trigger] src[u][v] < INFINITE implies has_route_within(
        src,
        u,
        v,
        src[u][v] as int,
    ) by {
        let p = seq![u, v];
        assert(crate::routes::hop_weight(src, p, 0) == src[u][v]);
        assert(is_route(src, u, v, p));
        assert(p.drop_last() =~= seq![u]);
        assert(route_weight(src, p.drop_last()) == 0);
        assert(route_weight(src, p) == src[u][v]);
    }
    assert forall|u: int, v: int, p: Seq<int>|
        #[trigger] is_simple_route(src, u, v, p) && interior_below(
            p,
            nodes_used(0, 0, 0, u, v),
        ) implies src[u][v] <= route_weight(src, p) by {
        if p.len() >= 3 {
            assert(p[1] < 0);
            assert(0 <= p[1]);
        }
        if p.len() == 1 {
            assert(src[u][u] <= 0);
        } else {
            assert(p.len() == 2);
            assert(route_weight(src, p.drop_last()) == 0);
            assert(crate::routes::hop_weight(src, p, 0) == src[u][v]);
        }
    }
}

/// A part of a route that passes no node twice does so neither; and where the
/// route passes `k` once and otherwise nodes below `k + 1`, the parts before
/// and after `k` pass only nodes below `k`.
proof fn lemma_split_at_pivot(src: Seq<Seq<i64>>, u: int, v: int, p: Seq<int>, k: int, i: int)
    requires
        is_simple_route(src, u, v, p),
        interior_below(p, k + 1),
        0 < i < p.len() - 1,
        p[i] == k,
    ensures
        is_simple_route(src, u, k, p.take(i + 1)),
        is_simple_route(src, k, v, p.skip(i)),
        interior_below(p.take(i + 1), k),
        interior_below(p.skip(i), k),
        route_weight(src, p) == route_weight(src, p.take(i + 1)) + route_weight(src, p.skip(i)),
{
    lemma_split(src, u, v, p, i);
    let front = p.take(i + 1);
    let back = p.skip(i);
    assert forall|x: int, y: int| 0 < x < y < front.len() - 1 implies #[trigger] front[x]
        != #[trigger] front[y] by {
        assert(p[x] != p[y]);
    }
    assert forall|x: int, y: int| 0 < x < y < back.len() - 1 implies #[trigger] back[x]
        != #[trigger] back[y] by {
        assert(p[x + i] != p[y + i]);
    }
    assert forall|x: int| 0 < x < front.len() - 1 implies #[trigger] front[x] < k by {
        assert(p[x] < k + 1);
        assert(p[x] != p[i]);
    }
    assert forall|x: int| 0 < x < back.len() - 1 implies #[trigger] back[x] < k by {
        assert(p[x + i] < k + 1);
        assert(p[i] != p[x + i]);
    }
}

/// Relaxing the cell that the round stands before moves the round one cell on.
pub proof fn lemma_tracks_cell(src: Seq<Seq<i64>>, m: Seq<Seq<i64>>, k: int, a: int, b: int)
    requires
        tracks(src, m, k, a, b),
        k < src.len(),
        a < src.len(),
        b < src.len(),
    ensures
        tracks(src, relax_cell(m, k, a, b), k, a, b + 1),
{
    let n = src.len() as int;
    let after = relax_cell(m, k, a, b);
    let c = by_way_of(m, k, a, b);
    lemma_relax_cell_within(m, n, k, a, b);
    assert(FLOOR <= m[a][k] <= INFINITE && FLOOR <= m[k][b] <= INFINITE);
    assert(m[a].len() == n && m[k].len() == n);
    assert forall|u: int, v: int|
        0 <= u < n && 0 <= v < n && #[trigger] after[u][v] < INFINITE implies has_route_within(
        src,
        u,
        v,
        after[u][v] as int,
    ) by {
        assert(m[u].len() == n);
        if u == a && v == b && c < m[a][b] {
            assert(has_route_within(src, a, k, m[a][k] as int));
            assert(has_route_within(src, k, b, m[k][b] as int));
            let p = choose|p: Seq<int>| #[trigger]
                is_route(src, a, k, p) && route_weight(src, p) <= m[a][k];
            let q = choose|q: Seq<int>| #[trigger]
                is_route(src, k, b, q) && route_weight(src, q) <= m[k][b];
            lemma_join(src, a, k, b, p, q);
            assert(is_route(src, a, b, p + q.skip(1)));
        } else {
            assert(after[u][v] == m[u][v]);
            assert(has_route_within(src, u, v, m[u][v] as int));
        }
    }
    assert forall|u: int, v: int, p: Seq<int>|
        #[trigger] is_simple_route(src, u, v, p) && interior_below(
            p,
            nodes_used(k, a, b + 1, u, v),
        ) implies after[u][v] <= route_weight(src, p) by {
        assert(0 <= p[0] < n && 0 <= p[p.len() - 1] < n);
        assert(m[u].len() == n);
        if u == a && v == b {
            assert(after[a][b] <= m[a][b]);
            if interior_below(p, k) {
                assert(m[a][b] <= route_weight(src, p));
            } else {
                let i = choose|i: int| 0 < i < p.len() - 1 && !(#[trigger] p[i] < k);
                assert(p[i] < k + 1);
                lemma_split_at_pivot(src, a, b, p, k, i);
                let front = p.take(i + 1);
                let back = p.skip(i);
                assert(interior_below(front, nodes_used(k, a, b, a, k))) by {
                    assert forall|x: int| 0 < x < front.len() - 1 implies #[trigger] front[x]
                        < nodes_used(k, a, b, a, k) by {
                        assert(front[x] < k);
                    }
                }
                assert(interior_below(back, nodes_used(k, a, b, k, b))) by {
                    assert forall|x: int| 0 < x < back.len() - 1 implies #[trigger] back[x]
                        < nodes_used(k, a, b, k, b) by {
                        assert(back[x] < k);
                    }
                }
                assert(is_simple_route(src, a, k, front));
                assert(is_simple_route(src, k, b, back));
                assert(m[a][k] <= route_weight(src, front));
                assert(m[k][b] <= route_weight(src, back));
                lemma_simple_is_finite(src, a, k, front);
                lemma_simple_is_finite(src, k, b, back);
                lemma_simple_is_finite(src, a, b, p);
                assert(c <= route_weight(src, p));
            }
        } else {
            assert(after[u][v] == m[u][v]);
            assert(nodes_used(k, a, b + 1, u, v) == nodes_used(k, a, b, u, v));
        }
    }
}

/// Relaxing the first `b` cells of row `a` moves the round `b` cells on.
pub proof fn lemma_tracks_row(src: Seq<Seq<i64>>, m: Seq<Seq<i64>>, k: int, a: int, b: nat)
    requires
        tracks(src, m, k, a, 0),
        k < src.len(),
        a < src.len(),
        b <= src.len(),
    ensures
        tracks(src, relax_row(m, k, a, b), k, a, b as int),
    decreases b,
{
    if b > 0 {
        lemma_tracks_row(src, m, k, a, (b - 1) as nat);
        lemma_tracks_cell(src, relax_row(m, k, a, (b - 1) as nat), k, a, b - 1);
    }
}

/// Standing behind the last cell of a row is standing before the next row.
pub proof fn lemma_tracks_next_row(src: Seq<Seq<i64>>, m: Seq<Seq<i64>>, k: int, a: int)
    requires
        tracks(src, m, k, a, src.len() as int),
        a < src.len(),
    ensures
        tracks(src, m, k, a + 1, 0),
{
    let n = src.len() as int;
    assert forall|u: int, v: int, p: Seq<int>|
        #[trigger] is_simple_route(src, u, v, p) && interior_below(
            p,
            nodes_used(k, a + 1, 0, u, v),
        ) implies m[u][v] <= route_weight(src, p) by {
        assert(0 <= p[p.len() - 1] < n);
        assert(nodes_used(k, a + 1, 0, u, v) == nodes_used(k, a, n, u, v));
    }
}

/// Relaxing the first `a` rows moves the round `a` rows on.
pub proof fn lemma_tracks_rows(src: Seq<Seq<i64>>, m: Seq<Seq<i64>>, k: int, a: nat)
    requires
        tracks(src, m, k, 0, 0),
        k < src.len(),
        a <= src.len(),
    ensures
        tracks(src, relax_rows(m, k, a), k, a as int, 0),
    decreases a,
{
    if a > 0 {
        lemma_tracks_rows(src, m, k, (a - 1) as nat);
        let above = relax_rows(m, k, (a - 1) as nat);
        lemma_tracks_row(src, above, k, a - 1, src.len());
        lemma_tracks_next_row(src, relax_row(above, k, a - 1, src.len()), k, a - 1);
    }
}

/// Standing behind the last row of a round is standing before the next round.
pub proof fn lemma_tracks_next_round(src: Seq<Seq<i64>>, m: Seq<Seq<i64>>, k: int)
    requires
        tracks(src, m, k, src.len() as int, 0),
        k < src.len(),
    ensures
        tracks(src, m, k + 1, 0, 0),
{
    let n = src.len() as int;
    assert forall|u: int, v: int, p: Seq<int>|
        #[trigger] is_simple_route(src, u, v, p) && interior_below(
            p,
            nodes_used(k + 1, 0, 0, u, v),
        ) implies m[u][v] <= route_weight(src, p) by {
        assert(0 <= p[0] < n);
        assert(nodes_used(k + 1, 0, 0, u, v) == nodes_used(k, n, 0, u, v));
    }
}

/// After `k` rounds the matrix stands before round `k`.
pub proof fn lemma_tracks_rounds(src: Seq<Seq<i64>>, k: nat)
    requires
        is_graph(src),
        k <= src.len(),
    ensures
        tracks(src, relax_rounds(src, k), k as int, 0, 0),
    decreases k,
{
    if k == 0 {
        lemma_tracks_start(src);
    } else {
        lemma_tracks_rounds(src, (k - 1) as nat);
        let before = relax_rounds(src, (k - 1) as nat);
        lemma_tracks_rows(src, before, k - 1, src.len());
        lemma_tracks_next_round(src, relax_rows(before, k - 1, src.len()), k - 1);
    }
}

} // verus!
