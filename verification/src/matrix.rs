//! The dense graph store used by the all-pairs solver.
//!
//! A graph on `n` nodes is an `n` by `n` matrix of distances. The cell in
//! row `u` and column `v` holds the weight of the lightest edge from `u` to
//! `v`, or the sentinel [`INFINITE`] when there is none. The diagonal starts
//! at zero.

use vstd::prelude::*;
use crate::graph::GraphError;

verus! {

/// The sentinel for "no edge" and "no walk": half of the largest distance,
/// so that the sum of two sentinels is still a distance.
pub const INFINITE: i64 = 4_611_686_018_427_387_903;

/// The least value that a cell may take. Sums below it are raised to it.
pub const FLOOR: i64 = -4_611_686_018_427_387_903;

/// A directed edge `a -> b` whose weight may be negative.
#[derive(Clone, Copy, Debug, PartialEq, Eq)]
pub struct SignedEdge {
    pub a: u16,
    pub b: u16,
    pub weight: i32,
}

impl SignedEdge {
    /// The edge from `a` to `b` with the given weight.
    pub fn new(a: u16, b: u16, weight: i32) -> (edge: Self)
        ensures
            edge.a == a,
            edge.b == b,
            edge.weight == weight,
    {
        Self { a, b, weight }
    }
}

/// The matrix that a vector of rows holds.
pub open spec fn rows_of(rows: Seq<Vec<i64>>) -> Seq<Seq<i64>> {
    Seq::new(rows.len(), |u: int| rows[u]@)
}

/// `m` has `n` rows of `n` cells.
pub open spec fn is_square(m: Seq<Seq<i64>>, n: int) -> bool {
    &&& m.len() == n
    &&& forall|u: int| 0 <= u < n ==> (#[trigger] m[u]).len() == n
}

/// `m` is the matrix of a graph: square, with at most `u16::MAX` nodes, every
/// cell either the sentinel or an edge weight, and no positive diagonal.
pub open spec fn is_graph(m: Seq<Seq<i64>>) -> bool {
    &&& m.len() <= u16::MAX
    &&& is_square(m, m.len() as int)
    &&& forall|u: int, v: int|
        0 <= u < m.len() && 0 <= v < m.len() ==> {
            ||| #[trigger] m[u][v] == INFINITE
            ||| i32::MIN <= m[u][v] <= i32::MAX
        }
    &&& forall|u: int| 0 <= u < m.len() ==> #[trigger] m[u][u] <= 0
}

/// Both endpoints of every edge are below `n`.
pub open spec fn endpoints_below(edges: Seq<SignedEdge>, n: int) -> bool {
    forall|k: int| 0 <= k < edges.len() ==> (#[trigger] edges[k]).a < n && edges[k].b < n
}

/// The cell for the pair `(u, v)` after the edges `edges` are applied in
/// order: zero on the diagonal and the sentinel elsewhere to begin with, and
/// then the least of that and the weights of the edges from `u` to `v`.
pub open spec fn least_weight(edges: Seq<SignedEdge>, u: int, v: int) -> i64
    decreases edges.len(),
{
    if edges.len() == 0 {
        if u == v {
            0
        } else {
            INFINITE
        }
    } else {
        let rest = least_weight(edges.drop_last(), u, v);
        let e = edges.last();
        if e.a == u && e.b == v && e.weight < rest {
            e.weight as i64
        } else {
            rest
        }
    }
}

/// The matrix of the graph with `n` nodes and the edges `edges`.
pub open spec fn collapsed(n: int, edges: Seq<SignedEdge>) -> Seq<Seq<i64>> {
    Seq::new(n as nat, |u: int| Seq::new(n as nat, |v: int| least_weight(edges, u, v)))
}

/// Duplicate edges collapse to the lightest: the cell of a pair is no
/// heavier than any edge between the pair, and it is the weight of one of
/// them unless the starting value is lighter than all.
pub proof fn lemma_least_weight(edges: Seq<SignedEdge>, u: int, v: int)
    ensures
        forall|k: int|
            0 <= k < edges.len() && (#[trigger] edges[k]).a == u && edges[k].b == v
                ==> least_weight(edges, u, v) <= edges[k].weight,
        least_weight(edges, u, v) <= (if u == v {
            0
        } else {
            INFINITE
        }),
        least_weight(edges, u, v) == (if u == v {
            0
        } else {
            INFINITE
        }) || exists|k: int|
            0 <= k < edges.len() && (#[trigger] edges[k]).a == u && edges[k].b == v
                && least_weight(edges, u, v) == edges[k].weight,
    decreases edges.len(),
{
    if edges.len() > 0 {
        let front = edges.drop_last();
        lemma_least_weight(front, u, v);
        let last = edges.len() - 1;
        assert forall|k: int|
            0 <= k < edges.len() && (#[trigger] edges[k]).a == u && edges[k].b == v
            implies least_weight(edges, u, v) <= edges[k].weight by {
            if k < last {
                assert(front[k] == edges[k]);
            }
        }
        let e = edges.last();
        if e.a == u && e.b == v && e.weight < least_weight(front, u, v) {
            assert(edges[last].a == u && edges[last].b == v);
        } else if least_weight(front, u, v) != (if u == v {
            0i64
        } else {
            INFINITE
        }) {
            let k = choose|k: int|
                0 <= k < front.len() && (#[trigger] front[k]).a == u && front[k].b == v
                    && least_weight(front, u, v) == front[k].weight;
            assert(edges[k] == front[k]);
        }
    }
}

/// Collapsing any edges gives the matrix of a graph.
pub proof fn lemma_collapsed_is_graph(n: int, edges: Seq<SignedEdge>)
    requires
        0 <= n <= u16::MAX,
    ensures
        is_graph(collapsed(n, edges)),
{
    let m = collapsed(n, edges);
    assert forall|u: int, v: int| 0 <= u < m.len() && 0 <= v < m.len() implies {
        ||| #[trigger] m[u][v] == INFINITE
        ||| i32::MIN <= m[u][v] <= i32::MAX
    } by {
        lemma_least_weight(edges, u, v);
    }
    assert forall|u: int| 0 <= u < m.len() implies #[trigger] m[u][u] <= 0 by {
        lemma_least_weight(edges, u, u);
    }
}

/// A weighted directed graph held as a dense matrix.
pub struct MatrixGraph {
    num_nodes: u16,
    cells: Vec<Vec<i64>>,
}

impl View for MatrixGraph {
    type V = Seq<Seq<i64>>;

    closed spec fn view(&self) -> Seq<Seq<i64>> {
        rows_of(self.cells@)
    }
}

impl MatrixGraph {
    #[verifier::type_invariant]
    spec fn inv(&self) -> bool {
        &&& self.num_nodes == self.cells@.len()
        &&& is_graph(self@)
    }

    /// Builds the matrix of the graph with `num_nodes` nodes and the given
    /// edges. Of several edges between one ordered pair the lightest is kept.
    pub fn build(num_nodes: u16, edges: &Vec<SignedEdge>) -> (r: Result<Self, GraphError>)
        ensures
            match r {
                Ok(g) => {
                    &&& endpoints_below(edges@, num_nodes as int)
                    &&& g@ == collapsed(num_nodes as int, edges@)
                    &&& is_graph(g@)
                },
                Err(e) => e == GraphError::InvalidNodeIndex && !endpoints_below(
                    edges@,
                    num_nodes as int,
                ),
            },
    {
        let ghost none = Seq::<SignedEdge>::empty();
        let mut cells: Vec<Vec<i64>> = Vec::new();
        let mut u: u16 = 0;
        while u < num_nodes
            invariant
                u <= num_nodes,
                cells@.len() == u,
                none.len() == 0,
                forall|x: int| 0 <= x < u ==> (#[trigger] cells@[x])@.len() == num_nodes,
                forall|x: int, y: int|
                    0 <= x < u && 0 <= y < num_nodes ==> #[trigger] cells@[x]@[y] == least_weight(
                        none,
                        x,
                        y,
                    ),
            decreases num_nodes - u,
        {
            let mut row: Vec<i64> = Vec::new();
            let mut v: u16 = 0;
            while v < num_nodes
                invariant
                    v <= num_nodes,
                    u < num_nodes,
                    row@.len() == v,
                    none.len() == 0,
                    forall|y: int|
                        0 <= y < v ==> #[trigger] row@[y] == least_weight(none, u as int, y),
                decreases num_nodes - v,
            {
                row.push(if u == v { 0 } else { INFINITE });
                v += 1;
            }
            cells.push(row);
            u += 1;
        }
        let mut k: usize = 0;
        while k < edges.len()
            invariant
                k <= edges@.len(),
                cells@.len() == num_nodes,
                forall|x: int| 0 <= x < num_nodes ==> (#[trigger] cells@[x])@.len() == num_nodes,
                forall|j: int|
                    0 <= j < k ==> (#[trigger] edges@[j]).a < num_nodes && edges@[j].b < num_nodes,
                forall|x: int, y: int|
                    0 <= x < num_nodes && 0 <= y < num_nodes ==> #[trigger] cells@[x]@[y]
                        == least_weight(edges@.take(k as int), x, y),
            decreases edges@.len() - k,
        {
            let e = edges[k];
            if e.a >= num_nodes || e.b >= num_nodes {
                return Err(GraphError::InvalidNodeIndex);
            }
            let ghost before = cells@;
            proof {
                assert(edges@.take(k + 1).drop_last() == edges@.take(k as int));
                assert(edges@.take(k + 1).last() == e);
            }
            if (e.weight as i64) < cells[e.a as usize][e.b as usize] {
                cells[e.a as usize][e.b as usize] = e.weight as i64;
            }
            proof {
                assert forall|x: int, y: int|
                    0 <= x < num_nodes && 0 <= y < num_nodes implies #[trigger] cells@[x]@[y]
                    == least_weight(edges@.take(k + 1), x, y) by {
                    assert(before[x]@[y] == least_weight(edges@.take(k as int), x, y));
                }
            }
            k += 1;
        }
        proof {
            assert(edges@.take(k as int) == edges@);
            let m = rows_of(cells@);
            let c = collapsed(num_nodes as int, edges@);
            assert(m.len() == c.len());
            assert forall|x: int| 0 <= x < m.len() implies m[x] == c[x] by {
                assert(m[x].len() == c[x].len());
                assert forall|y: int| 0 <= y < m[x].len() implies m[x][y] == c[x][y] by {
                    assert(cells@[x]@[y] == least_weight(edges@, x, y));
                }
                assert(m[x] =~= c[x]);
            }
            assert(m =~= c);
            lemma_collapsed_is_graph(num_nodes as int, edges@);
        }
        Ok(MatrixGraph { num_nodes, cells })
    }

    /// Gives up the graph for its rows.
    pub(crate) fn into_rows(self) -> (rows: Vec<Vec<i64>>)
        ensures
            rows_of(rows@) == self@,
            is_graph(self@),
    {
        proof {
            use_type_invariant(&self);
        }
        self.cells
    }

    /// The number of nodes.
    pub fn num_nodes(&self) -> (n: u16)
        ensures
            n == self@.len(),
            is_graph(self@),
    {
        proof {
            use_type_invariant(self);
        }
        self.num_nodes
    }

    /// The weight of the lightest edge from `u` to `v`, if there is one. On
    /// the diagonal this is zero unless a self-loop is lighter.
    pub fn weight(&self, u: u16, v: u16) -> (r: Result<Option<i64>, GraphError>)
        ensures
            match r {
                Ok(Some(w)) => u < self@.len() && v < self@.len() && w == self@[u as int][v as int]
                    && w < INFINITE,
                Ok(None) => u < self@.len() && v < self@.len() && self@[u as int][v as int]
                    == INFINITE,
                Err(e) => e == GraphError::InvalidNodeIndex && !(u < self@.len() && v
                    < self@.len()),
            },
    {
        proof {
            use_type_invariant(self);
        }
        if u >= self.num_nodes || v >= self.num_nodes {
            return Err(GraphError::InvalidNodeIndex);
        }
        assert(self@[u as int].len() == self@.len());
        let w = self.cells[u as usize][v as usize];
        assert(w == self@[u as int][v as int]);
        if w < INFINITE {
            Ok(Some(w))
        } else {
            Ok(None)
        }
    }
}

} // verus!
