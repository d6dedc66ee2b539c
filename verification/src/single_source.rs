//! The single-source query behind one interface: two interchangeable
//! strategies, chosen by the density of the graph.

use vstd::prelude::*;
use crate::graph::{Graph, GraphError, Hop, Neighbor, is_walk, query_outcome, walk_weight};

verus! {

/// How a single-source query is solved.
#[derive(Clone, Copy, Debug, PartialEq, Eq)]
pub enum Strategy {
    /// Linear scans over a distance array: quadratic in the node count.
    ArrayScan,
    /// A min-queue of tentative distances: `O(E log V)`.
    PriorityQueue,
}

/// The number of edges in the first `k` adjacency lists.
pub open spec fn edges_in(adj: Seq<Seq<Neighbor>>, k: int) -> int
    decreases k,
{
    if k <= 0 {
        0
    } else {
        edges_in(adj, k - 1) + adj[k - 1].len()
    }
}

/// A graph is dense when sixteen times its edge count reaches the square of
/// its node count; the array scan is then the better strategy.
pub open spec fn is_dense(adj: Seq<Seq<Neighbor>>) -> bool {
    16 * edges_in(adj, adj.len() as int) >= adj.len() * adj.len()
}

/// More adjacency lists hold no fewer edges.
pub proof fn lemma_edges_in_monotonic(adj: Seq<Seq<Neighbor>>, i: int, j: int)
    requires
        0 <= i <= j,
    ensures
        0 <= edges_in(adj, i) <= edges_in(adj, j),
    decreases j,
{
    if j > 0 {
        if i < j {
            lemma_edges_in_monotonic(adj, i, j - 1);
        } else {
            lemma_edges_in_monotonic(adj, i - 1, j - 1);
        }
    }
}

/// A query has one right outcome: whatever two solvers return for it, if both
/// returns are right, they are equal.
pub proof fn lemma_outcome_unique(
    adj: Seq<Seq<Neighbor>>,
    s: int,
    t: int,
    a: Result<Option<u32>, GraphError>,
    b: Result<Option<u32>, GraphError>,
)
    requires
        query_outcome(adj, s, t, a),
        query_outcome(adj, s, t, b),
    ensures
        a == b,
{
    match (a, b) {
        (Ok(Some(x)), Ok(Some(y))) => {
            let p = choose|p: Seq<Hop>| #[trigger] is_walk(adj, s, t, p) && walk_weight(adj, p) == x;
            let q = choose|q: Seq<Hop>| #[trigger] is_walk(adj, s, t, q) && walk_weight(adj, q) == y;
            assert(y <= walk_weight(adj, p));
            assert(x <= walk_weight(adj, q));
        },
        (Ok(Some(x)), Ok(None)) => {
            let p = choose|p: Seq<Hop>| #[trigger] is_walk(adj, s, t, p) && walk_weight(adj, p) == x;
            assert(is_walk(adj, s, t, p));
        },
        (Ok(None), Ok(Some(y))) => {
            let q = choose|q: Seq<Hop>| #[trigger] is_walk(adj, s, t, q) && walk_weight(adj, q) == y;
            assert(is_walk(adj, s, t, q));
        },
        _ => {},
    }
}

impl Graph {
    /// The strategy that suits the density of this graph.
    pub fn preferred_strategy(&self) -> (strategy: Strategy)
        ensures
            strategy == (if is_dense(self@) {
                Strategy::ArrayScan
            } else {
                Strategy::PriorityQueue
            }),
    {
        let n = self.num_nodes();
        if n == 0 {
            return Strategy::ArrayScan;
        }
        assert(1 <= n * n <= u16::MAX * u16::MAX) by (nonlinear_arith)
            requires
                1 <= n <= u16::MAX,
        ;
        let threshold: u64 = (n as u64) * (n as u64);
        let mut sixteenfold: u64 = 0;
        let mut u: u16 = 0;
        while u < n
            invariant
                u <= n == self@.len(),
                threshold == n * n,
                threshold <= u16::MAX * u16::MAX,
                sixteenfold == 16 * edges_in(self@, u as int),
                sixteenfold < threshold,
            decreases n - u,
        {
            let len = self.edges_from(u).len();
            proof {
                lemma_edges_in_monotonic(self@, u as int + 1, n as int);
            }
            if len as u64 >= (threshold - sixteenfold + 15) / 16 {
                return Strategy::ArrayScan;
            }
            sixteenfold = sixteenfold + 16 * (len as u64);
            u += 1;
        }
        if sixteenfold >= threshold {
            Strategy::ArrayScan
        } else {
            Strategy::PriorityQueue
        }
    }

    /// Answers the query with the given strategy. The outcome does not depend
    /// on the strategy.
    pub fn shortest_path_with(&self, strategy: Strategy, start_node: u16, end_node: u16) -> (r:
        Result<Option<u32>, GraphError>)
        ensures
            query_outcome(self@, start_node as int, end_node as int, r),
    {
        match strategy {
            Strategy::ArrayScan => self.shortest_path_scan(start_node, end_node),
            Strategy::PriorityQueue => self.shortest_path_queue(start_node, end_node),
        }
    }

    /// The weight of a lightest walk from `start_node` to `end_node`: `Ok(None)`
    /// when there is no walk, and an error when either is not a node.
    pub fn shortest_path(&self, start_node: u16, end_node: u16) -> (r: Result<
        Option<u32>,
        GraphError,
    >)
        ensures
            query_outcome(self@, start_node as int, end_node as int, r),
    {
        let strategy = self.preferred_strategy();
        self.shortest_path_with(strategy, start_node, end_node)
    }
}

} // verus!
