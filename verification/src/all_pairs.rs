//! The all-pairs solver: the distance matrix of a graph, and the
//! classification of a pair of nodes by it.

use vstd::prelude::*;
use crate::closure::{
    closure, has_route_within, lemma_relax_cell_within, lemma_tracks_rounds, relax_cell,
    relax_rounds, relax_row, relax_rows, tracks, within,
};
use crate::graph::GraphError;
use crate::matrix::{FLOOR, INFINITE, MatrixGraph, is_graph, rows_of};
use crate::routes::{
    has_route_below, is_least_weight, is_route, is_simple_route, lemma_cut_loops, lemma_join,
    lemma_negative_cycle_unbounded, lemma_simple_is_finite, lemma_split, on_negative_cycle,
    passes_negative_cycle, reachable, route_weight, unbounded_below,
};

verus! {

/// What the distance matrix says of an ordered pair of nodes.
#[derive(Clone, Copy, Debug, PartialEq, Eq)]
pub enum Classification {
    /// The weight of a lightest walk.
    Distance(i64),
    /// There is no walk.
    Impossible,
    /// Walks can be made lighter without end by going round a negative cycle.
    NegativeInfinity,
}

/// Some node below `upto` has a negative diagonal cell in `d`, is reached
/// from `u` and reaches `v`.
pub open spec fn has_negative_pivot(d: Seq<Seq<i64>>, u: int, v: int, upto: int) -> bool {
    exists|k: int|
        0 <= k < upto && #[trigger] d[k][k] < 0 && d[u][k] < INFINITE && d[k][v] < INFINITE
}

/// How the matrix `d` classifies the pair `(u, v)`.
pub open spec fn classify_spec(d: Seq<Seq<i64>>, u: int, v: int) -> Classification {
    if d[u][v] >= INFINITE {
        Classification::Impossible
    } else if has_negative_pivot(d, u, v, d.len() as int) {
        Classification::NegativeInfinity
    } else {
        Classification::Distance(d[u][v])
    }
}

/// Both nodes of every pair are below `n`.
pub open spec fn pairs_below(pairs: Seq<(u16, u16)>, n: int) -> bool {
    forall|i: int| 0 <= i < pairs.len() ==> (#[trigger] pairs[i]).0 < n && pairs[i].1 < n
}

/// What a classification claims of the walks from `u` to `v` in the graph `src`.
pub open spec fn describes(src: Seq<Seq<i64>>, u: int, v: int, c: Classification) -> bool {
    match c {
        Classification::Impossible => !reachable(src, u, v),
        Classification::NegativeInfinity => passes_negative_cycle(src, u, v) && unbounded_below(
            src,
            u,
            v,
        ),
        Classification::Distance(d) => !passes_negative_cycle(src, u, v) && is_least_weight(
            src,
            u,
            v,
            d as int,
        ),
    }
}

/// After all rounds every finite cell is no lighter than some route, and
/// every cell is no heavier than any route that passes no node twice.
pub proof fn lemma_closure_tracks(src: Seq<Seq<i64>>)
    requires
        is_graph(src),
    ensures
        tracks(src, closure(src), src.len() as int, 0, 0),
{
    lemma_tracks_rounds(src, src.len());
}

/// No cell is heavier than a route between its nodes that passes no node twice.
proof fn lemma_cell_below_simple(src: Seq<Seq<i64>>, u: int, v: int, p: Seq<int>)
    requires
        is_graph(src),
        is_simple_route(src, u, v, p),
    ensures
        0 <= u < src.len(),
        0 <= v < src.len(),
        closure(src)[u][v] <= route_weight(src, p) < INFINITE,
{
    lemma_closure_tracks(src);
    let n = src.len() as int;
    assert(0 <= p[0] < n && 0 <= p[p.len() - 1] < n);
    assert(crate::routes::interior_below(p, crate::closure::nodes_used(n, 0, 0, u, v))) by {
        assert forall|i: int| 0 < i < p.len() - 1 implies #[trigger] p[i]
            < crate::closure::nodes_used(n, 0, 0, u, v) by {}
    }
    lemma_simple_is_finite(src, u, v, p);
}

/// A cell of the distance matrix is finite exactly when a walk joins its nodes.
pub proof fn lemma_finite_iff_reachable(src: Seq<Seq<i64>>, u: int, v: int)
    requires
        is_graph(src),
        0 <= u < src.len(),
        0 <= v < src.len(),
    ensures
        closure(src)[u][v] < INFINITE <==> reachable(src, u, v),
{
    lemma_closure_tracks(src);
    let d = closure(src);
    if d[u][v] < INFINITE {
        assert(has_route_within(src, u, v, d[u][v] as int));
        let p = choose|p: Seq<int>| #[trigger]
            is_route(src, u, v, p) && route_weight(src, p) <= d[u][v];
        assert(is_route(src, u, v, p));
    }
    if reachable(src, u, v) {
        let p = choose|p: Seq<int>| is_route(src, u, v, p);
        let (q, _i, _z) = lemma_cut_loops(src, u, v, p);
        lemma_cell_below_simple(src, u, v, q);
    }
}

/// The scan for a negative pivot finds one exactly when some walk from `u`
/// to `v` passes a node on a negative cycle.
pub proof fn lemma_pivot_iff_cycle(src: Seq<Seq<i64>>, u: int, v: int)
    requires
        is_graph(src),
        0 <= u < src.len(),
        0 <= v < src.len(),
    ensures
        has_negative_pivot(closure(src), u, v, src.len() as int) <==> passes_negative_cycle(
            src,
            u,
            v,
        ),
{
    lemma_closure_tracks(src);
    let d = closure(src);
    let n = src.len() as int;
    if has_negative_pivot(d, u, v, n) {
        let k = choose|k: int|
            0 <= k < n && #[trigger] d[k][k] < 0 && d[u][k] < INFINITE && d[k][v] < INFINITE;
        lemma_finite_iff_reachable(src, u, k);
        lemma_finite_iff_reachable(src, k, v);
        assert(has_route_within(src, k, k, d[k][k] as int));
        let z = choose|z: Seq<int>| #[trigger]
            is_route(src, k, k, z) && route_weight(src, z) <= d[k][k];
        assert(is_route(src, k, k, z) && route_weight(src, z) < 0);
        assert(on_negative_cycle(src, k));
    }
    if passes_negative_cycle(src, u, v) {
        let c = choose|c: int|
            reachable(src, u, c) && #[trigger] on_negative_cycle(src, c) && reachable(src, c, v);
        let a = choose|a: Seq<int>| is_route(src, u, c, a);
        let b = choose|b: Seq<int>| is_route(src, c, v, b);
        let z = choose|z: Seq<int>| #[trigger] is_route(src, c, c, z) && route_weight(src, z) < 0;
        let (q, i, ring) = lemma_cut_loops(src, c, c, z);
        if route_weight(src, q) <= route_weight(src, z) {
            lemma_cell_below_simple(src, c, c, q);
            lemma_finite_iff_reachable(src, u, c);
            lemma_finite_iff_reachable(src, c, v);
            assert(d[c][c] < 0 && d[u][c] < INFINITE && d[c][v] < INFINITE);
        } else {
            let k = z[i];
            lemma_cell_below_simple(src, k, k, ring);
            lemma_split(src, c, c, z, i);
            lemma_join(src, u, c, k, a, z.take(i + 1));
            lemma_join(src, k, c, v, z.skip(i), b);
            assert(is_route(src, u, k, a + z.take(i + 1).skip(1)));
            assert(is_route(src, k, v, z.skip(i) + b.skip(1)));
            lemma_finite_iff_reachable(src, u, k);
            lemma_finite_iff_reachable(src, k, v);
            assert(d[k][k] < 0 && d[u][k] < INFINITE && d[k][v] < INFINITE);
        }
    }
}

/// Where no walk from `u` to `v` passes a negative cycle, every walk weighs
/// at least what the cell holds.
proof fn lemma_cell_below_all(src: Seq<Seq<i64>>, u: int, v: int, p: Seq<int>)
    requires
        is_graph(src),
        !passes_negative_cycle(src, u, v),
        is_route(src, u, v, p),
    ensures
        0 <= u < src.len(),
        0 <= v < src.len(),
        closure(src)[u][v] <= route_weight(src, p),
{
    let (q, i, z) = lemma_cut_loops(src, u, v, p);
    lemma_cell_below_simple(src, u, v, q);
    if !(route_weight(src, q) <= route_weight(src, p)) {
        let c = p[i];
        lemma_split(src, u, v, p, i);
        assert(is_route(src, u, c, p.take(i + 1)));
        assert(is_route(src, c, v, p.skip(i)));
        assert(is_route(src, c, c, z) && route_weight(src, z) < 0);
        assert(reachable(src, u, c) && on_negative_cycle(src, c) && reachable(src, c, v));
    }
}

/// Where a walk joins `u` and `v` and none passes a negative cycle, the cell
/// holds the weight of a lightest walk.
pub proof fn lemma_cell_is_least(src: Seq<Seq<i64>>, u: int, v: int)
    requires
        is_graph(src),
        0 <= u < src.len(),
        0 <= v < src.len(),
        closure(src)[u][v] < INFINITE,
        !passes_negative_cycle(src, u, v),
    ensures
        is_least_weight(src, u, v, closure(src)[u][v] as int),
{
    lemma_closure_tracks(src);
    let d = closure(src);
    assert(has_route_within(src, u, v, d[u][v] as int));
    let p = choose|p: Seq<int>| #[trigger] is_route(src, u, v, p) && route_weight(src, p) <= d[u][v];
    lemma_cell_below_all(src, u, v, p);
    assert(is_route(src, u, v, p) && route_weight(src, p) == d[u][v]);
    assert forall|q: Seq<int>| #[trigger] is_route(src, u, v, q) implies d[u][v] <= route_weight(
        src,
        q,
    ) by {
        lemma_cell_below_all(src, u, v, q);
    }
}

/// The classification of a pair by the distance matrix of a graph says what
/// holds of the walks between the pair in that graph.
pub proof fn lemma_classification_describes(src: Seq<Seq<i64>>, u: int, v: int)
    requires
        is_graph(src),
        0 <= u < src.len(),
        0 <= v < src.len(),
    ensures
        describes(src, u, v, classify_spec(closure(src), u, v)),
{
    lemma_closure_tracks(src);
    lemma_finite_iff_reachable(src, u, v);
    lemma_pivot_iff_cycle(src, u, v);
    let d = closure(src);
    if d[u][v] < INFINITE {
        if has_negative_pivot(d, u, v, d.len() as int) {
            lemma_negative_cycle_unbounded(src, u, v);
        } else {
            lemma_cell_is_least(src, u, v);
        }
    }
}

/// At most one classification describes a pair.
pub proof fn lemma_description_unique(
    src: Seq<Seq<i64>>,
    u: int,
    v: int,
    c1: Classification,
    c2: Classification,
)
    requires
        describes(src, u, v, c1),
        describes(src, u, v, c2),
    ensures
        c1 == c2,
{
    match (c1, c2) {
        (Classification::Distance(x), Classification::Distance(y)) => {
            let p = choose|p: Seq<int>| #[trigger]
                is_route(src, u, v, p) && route_weight(src, p) == x;
            let q = choose|q: Seq<int>| #[trigger]
                is_route(src, u, v, q) && route_weight(src, q) == y;
            assert(y <= route_weight(src, p));
            assert(x <= route_weight(src, q));
        },
        (Classification::Distance(x), Classification::Impossible) => {
            let p = choose|p: Seq<int>| #[trigger]
                is_route(src, u, v, p) && route_weight(src, p) == x;
            assert(is_route(src, u, v, p));
        },
        (Classification::Impossible, Classification::Distance(y)) => {
            let q = choose|q: Seq<int>| #[trigger]
                is_route(src, u, v, q) && route_weight(src, q) == y;
            assert(is_route(src, u, v, q));
        },
        (Classification::NegativeInfinity, Classification::Impossible) => {
            assert(has_route_below(src, u, v, 0));
        },
        (Classification::Impossible, Classification::NegativeInfinity) => {
            assert(has_route_below(src, u, v, 0));
        },
        _ => {},
    }
}

/// The distances between all pairs of nodes of a graph.
pub struct DistanceMatrix {
    num_nodes: u16,
    cells: Vec<Vec<i64>>,
    source: Ghost<Seq<Seq<i64>>>,
}

impl View for DistanceMatrix {
    type V = Seq<Seq<i64>>;

    closed spec fn view(&self) -> Seq<Seq<i64>> {
        rows_of(self.cells@)
    }
}

impl DistanceMatrix {
    /// The matrix of the graph that the distances belong to.
    pub closed spec fn source(&self) -> Seq<Seq<i64>> {
        self.source@
    }

    #[verifier::type_invariant]
    spec fn inv(&self) -> bool {
        &&& is_graph(self.source@)
        &&& self.num_nodes == self.source@.len()
        &&& self@ == closure(self.source@)
        &&& within(self@, self.num_nodes as int)
    }

    /// The number of nodes.
    pub fn num_nodes(&self) -> (n: u16)
        ensures
            n == self.source().len(),
            n == self@.len(),
            is_graph(self.source()),
            self@ == closure(self.source()),
    {
        proof {
            use_type_invariant(self);
        }
        self.num_nodes
    }

    /// The cell for the pair `(u, v)`, whatever it holds.
    pub fn cell(&self, u: u16, v: u16) -> (r: Result<i64, GraphError>)
        ensures
            self@ == closure(self.source()),
            match r {
                Ok(d) => u < self.source().len() && v < self.source().len() && d == self@[u as int][v as int],
                Err(e) => e == GraphError::InvalidNodeIndex && !(u < self.source().len() && v
                    < self.source().len()),
            },
    {
        proof {
            use_type_invariant(self);
        }
        if u >= self.num_nodes || v >= self.num_nodes {
            return Err(GraphError::InvalidNodeIndex);
        }
        assert(self@[u as int].len() == self@.len());
        Ok(self.cells[u as usize][v as usize])
    }

    /// Classifies the pair `(u, v)`: no walk, walks lighter than any bound,
    /// or the weight of a lightest walk.
    pub fn classify(&self, u: u16, v: u16) -> (r: Result<Classification, GraphError>)
        ensures
            match r {
                Ok(c) => {
                    &&& u < self.source().len() && v < self.source().len()
                    &&& c == classify_spec(self@, u as int, v as int)
                    &&& describes(self.source(), u as int, v as int, c)
                },
                Err(e) => e == GraphError::InvalidNodeIndex && !(u < self.source().len() && v
                    < self.source().len()),
            },
    {
        proof {
            use_type_invariant(self);
        }
        let n = self.num_nodes;
        if u >= n || v >= n {
            return Err(GraphError::InvalidNodeIndex);
        }
        let ghost d = self@;
        proof {
            lemma_classification_describes(self.source@, u as int, v as int);
            assert(d[u as int].len() == n);
        }
        let direct = self.cells[u as usize][v as usize];
        if direct >= INFINITE {
            return Ok(Classification::Impossible);
        }
        let from_u = &self.cells[u as usize];
        let mut k: u16 = 0;
        while k < n
            invariant
                k <= n,
                n == d.len(),
                d == rows_of(self.cells@),
                within(d, n as int),
                u < n,
                v < n,
                from_u@ == d[u as int],
                !has_negative_pivot(d, u as int, v as int, k as int),
                d == self@,
                direct == d[u as int][v as int],
                direct < INFINITE,
                describes(self.source(), u as int, v as int, classify_spec(d, u as int, v as int)),
            decreases n - k,
        {
            assert(d[k as int].len() == n);
            let row = &self.cells[k as usize];
            if row[k as usize] < 0 && from_u[k as usize] < INFINITE && row[v as usize] < INFINITE {
                assert(d[k as int][k as int] < 0);
                assert(has_negative_pivot(d, u as int, v as int, n as int));
                return Ok(Classification::NegativeInfinity);
            }
            k += 1;
        }
        Ok(Classification::Distance(direct))
    }

    /// Classifies every pair of `queries`, in order. Nothing is classified
    /// unless every pair can be.
    pub fn classify_all(&self, queries: &Vec<(u16, u16)>) -> (r: Result<
        Vec<Classification>,
        GraphError,
    >)
        ensures
            match r {
                Ok(found) => {
                    &&& pairs_below(queries@, self.source().len() as int)
                    &&& found@.len() == queries@.len()
                    &&& forall|i: int|
                        0 <= i < queries@.len() ==> {
                            &&& #[trigger] found@[i] == classify_spec(
                                self@,
                                queries@[i].0 as int,
                                queries@[i].1 as int,
                            )
                            &&& describes(
                                self.source(),
                                queries@[i].0 as int,
                                queries@[i].1 as int,
                                found@[i],
                            )
                        }
                },
                Err(e) => e == GraphError::InvalidNodeIndex && !pairs_below(
                    queries@,
                    self.source().len() as int,
                ),
            },
    {
        let mut found: Vec<Classification> = Vec::new();
        let mut i: usize = 0;
        while i < queries.len()
            invariant
                i <= queries@.len(),
                found@.len() == i,
                forall|k: int|
                    0 <= k < i ==> (#[trigger] queries@[k]).0 < self.source().len() && queries@[k].1
                        < self.source().len(),
                forall|k: int|
                    0 <= k < i ==> {
                        &&& #[trigger] found@[k] == classify_spec(
                            self@,
                            queries@[k].0 as int,
                            queries@[k].1 as int,
                        )
                        &&& describes(
                            self.source(),
                            queries@[k].0 as int,
                            queries@[k].1 as int,
                            found@[k],
                        )
                    },
            decreases queries@.len() - i,
        {
            let (u, v) = queries[i];
            match self.classify(u, v) {
                Ok(c) => {
                    found.push(c);
                },
                Err(e) => {
                    assert(!(queries@[i as int].0 < self.source().len() && queries@[i as int].1
                        < self.source().len()));
                    return Err(e);
                },
            }
            i += 1;
        }
        Ok(found)
    }
}

impl MatrixGraph {
    /// Computes the distance between every ordered pair of nodes, in place,
    /// by one relaxation round per node.
    pub fn all_pairs(self) -> (distances: DistanceMatrix)
        ensures
            distances.source() == self@,
            distances@ == closure(self@),
            within(distances@, self@.len() as int),
    {
        let ghost src = self@;
        let num_nodes = self.num_nodes();
        let n = num_nodes as usize;
        let mut cells = self.into_rows();
        assert(within(src, n as int)) by {
            assert forall|x: int, y: int| 0 <= x < n && 0 <= y < n implies FLOOR
                <= #[trigger] src[x][y] <= INFINITE by {
                assert(src[x][y] == INFINITE || i32::MIN <= src[x][y] <= i32::MAX);
            }
        }
        let mut k: usize = 0;
        while k < n
            invariant
                k <= n == src.len(),
                within(rows_of(cells@), n as int),
                rows_of(cells@) == relax_rounds(src, k as nat),
            decreases n - k,
        {
            let ghost round_start = rows_of(cells@);
            let mut a: usize = 0;
            while a < n
                invariant
                    k < n,
                    a <= n == round_start.len(),
                    within(rows_of(cells@), n as int),
                    rows_of(cells@) == relax_rows(round_start, k as int, a as nat),
                decreases n - a,
            {
                let ghost row_start = rows_of(cells@);
                let mut b: usize = 0;
                while b < n
                    invariant
                        k < n,
                        a < n,
                        b <= n == row_start.len(),
                        within(rows_of(cells@), n as int),
                        rows_of(cells@) == relax_row(row_start, k as int, a as int, b as nat),
                    decreases n - b,
                {
                    let ghost before = rows_of(cells@);
                    proof {
                        assert(before[a as int].len() == n && before[k as int].len() == n);
                        assert(FLOOR <= before[a as int][k as int] <= INFINITE);
                        assert(FLOOR <= before[k as int][b as int] <= INFINITE);
                        lemma_relax_cell_within(before, n as int, k as int, a as int, b as int);
                    }
                    let first = cells[a][k];
                    let second = cells[k][b];
                    if first < INFINITE && second < INFINITE {
                        let sum = first + second;
                        let through = if sum < FLOOR {
                            FLOOR
                        } else {
                            sum
                        };
                        if through < cells[a][b] {
                            cells[a][b] = through;
                        }
                    }
                    proof {
                        assert(rows_of(cells@) =~= relax_cell(
                            before,
                            k as int,
                            a as int,
                            b as int,
                        )) by {
                            let now = rows_of(cells@);
                            let want = relax_cell(before, k as int, a as int, b as int);
                            assert(now.len() == want.len());
                            assert forall|x: int| 0 <= x < now.len() implies now[x]
                                =~= want[x] by {}
                        }
                    }
                    b += 1;
                }
                a += 1;
            }
            k += 1;
        }
        DistanceMatrix { num_nodes, cells, source: Ghost(src) }
    }
}

} // verus!
