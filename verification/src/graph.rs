//! The adjacency-list graph store used by the single-source solvers.
//!
//! A graph is a fixed number of nodes, each with an ordered list of outgoing
//! neighbours. Its mathematical model is a `Seq<Seq<Neighbor>>`; walks through
//! the graph are sequences of [`Hop`]s over that model.

use vstd::prelude::*;

verus! {

/// A directed edge `a -> b` with a non-negative weight.
#[derive(Clone, Copy, Debug, PartialEq, Eq)]
pub struct Edge {
    pub a: u16,
    pub b: u16,
    pub weight: u16,
}

impl Edge {
    /// The edge from `a` to `b` with the given weight.
    pub fn new(a: u16, b: u16, weight: u16) -> (edge: Self)
        ensures
            edge.a == a,
            edge.b == b,
            edge.weight == weight,
    {
        Self { a, b, weight }
    }
}

/// One entry of an adjacency list: the node an edge leads to, and its weight.
#[derive(Clone, Copy, Debug, PartialEq, Eq)]
pub struct Neighbor {
    pub node: u16,
    pub weight: u16,
}

/// Why a graph or a query was rejected.
#[derive(Clone, Copy, Debug, PartialEq, Eq)]
pub enum GraphError {
    /// An edge endpoint or a query endpoint is not below the node count.
    InvalidNodeIndex,
    /// The adjacency list does not have one entry per node.
    NodeCountMismatch,
}

/// What a graph error says in words.
pub open spec fn graph_error_text(error: GraphError) -> Seq<char> {
    match error {
        GraphError::InvalidNodeIndex => "invalid node index"@,
        GraphError::NodeCountMismatch => "adjacency list does not match the node count"@,
    }
}

impl GraphError {
    /// The error in words.
    pub fn message(&self) -> (text: &'static str)
        ensures
            text@ == graph_error_text(*self),
    {
        match self {
            GraphError::InvalidNodeIndex => "invalid node index",
            GraphError::NodeCountMismatch => "adjacency list does not match the node count",
        }
    }
}

/// Every neighbour named in `adj` is a node of `adj`, and node indices fit in `u16`.
pub open spec fn well_formed(adj: Seq<Seq<Neighbor>>) -> bool {
    &&& adj.len() <= u16::MAX
    &&& forall|u: int, i: int|
        0 <= u < adj.len() && 0 <= i < adj[u].len() ==> (#[trigger] adj[u][i]).node < adj.len()
}

/// The adjacency lists held by a vector of vectors.
pub open spec fn lists_of(lists: Seq<Vec<Neighbor>>) -> Seq<Seq<Neighbor>> {
    Seq::new(lists.len(), |u: int| lists[u]@)
}

/// The neighbours that `edges` gives to node `u`, in the order of `edges`.
pub open spec fn outgoing(edges: Seq<Edge>, u: int) -> Seq<Neighbor>
    decreases edges.len(),
{
    if edges.len() == 0 {
        Seq::empty()
    } else {
        let rest = outgoing(edges.drop_last(), u);
        let e = edges.last();
        if e.a == u {
            rest.push(Neighbor { node: e.b, weight: e.weight })
        } else {
            rest
        }
    }
}

/// The adjacency lists of the graph with `n` nodes and the edges `edges`.
pub open spec fn grouped(n: int, edges: Seq<Edge>) -> Seq<Seq<Neighbor>> {
    Seq::new(n as nat, |u: int| outgoing(edges, u))
}

/// Both endpoints of every edge are below `n`.
pub open spec fn endpoints_below(edges: Seq<Edge>, n: int) -> bool {
    forall|k: int| 0 <= k < edges.len() ==> (#[trigger] edges[k]).a < n && edges[k].b < n
}

/// One step of a walk: the edge in position `slot` of the adjacency list of `from`.
pub struct Hop {
    pub from: int,
    pub slot: int,
}

/// `hops` leads from `s` to `t` along edges of `adj`. The empty walk leads
/// from a node to itself.
pub open spec fn is_walk(adj: Seq<Seq<Neighbor>>, s: int, t: int, hops: Seq<Hop>) -> bool
    decreases hops.len(),
{
    if hops.len() == 0 {
        s == t && 0 <= s < adj.len()
    } else {
        let h = hops.last();
        &&& 0 <= h.from < adj.len()
        &&& 0 <= h.slot < adj[h.from].len()
        &&& adj[h.from][h.slot].node == t
        &&& is_walk(adj, s, h.from, hops.drop_last())
    }
}

/// The sum of the weights of the edges of `hops`.
pub open spec fn walk_weight(adj: Seq<Seq<Neighbor>>, hops: Seq<Hop>) -> int
    decreases hops.len(),
{
    if hops.len() == 0 {
        0
    } else {
        let h = hops.last();
        walk_weight(adj, hops.drop_last()) + adj[h.from][h.slot].weight
    }
}

/// `d` is the weight of some walk from `s` to `t`, and no walk from `s` to `t` is lighter.
pub open spec fn is_shortest(adj: Seq<Seq<Neighbor>>, s: int, t: int, d: int) -> bool {
    &&& exists|p: Seq<Hop>| #[trigger] is_walk(adj, s, t, p) && walk_weight(adj, p) == d
    &&& forall|p: Seq<Hop>| #[trigger] is_walk(adj, s, t, p) ==> d <= walk_weight(adj, p)
}

/// No walk leads from `s` to `t`.
pub open spec fn no_walk(adj: Seq<Seq<Neighbor>>, s: int, t: int) -> bool {
    forall|p: Seq<Hop>| !#[trigger] is_walk(adj, s, t, p)
}

/// `r` is the right answer to the query "how far is `t` from `s`": the weight
/// of a lightest walk, or `None` when there is no walk at all.
pub open spec fn answers(adj: Seq<Seq<Neighbor>>, s: int, t: int, r: Option<u32>) -> bool {
    match r {
        Some(d) => is_shortest(adj, s, t, d as int),
        None => no_walk(adj, s, t),
    }
}

/// `r` is the right outcome of the query from `s` to `t`: the answer when
/// both are nodes of `adj`, and the invalid-index error otherwise.
pub open spec fn query_outcome(
    adj: Seq<Seq<Neighbor>>,
    s: int,
    t: int,
    r: Result<Option<u32>, GraphError>,
) -> bool {
    match r {
        Ok(d) => 0 <= s < adj.len() && 0 <= t < adj.len() && answers(adj, s, t, d),
        Err(e) => e == GraphError::InvalidNodeIndex && !(0 <= s < adj.len() && 0 <= t < adj.len()),
    }
}

/// A weighted directed graph held as one adjacency list per node.
pub struct Graph {
    num_nodes: u16,
    neighbors_list: Vec<Vec<Neighbor>>,
}

impl View for Graph {
    type V = Seq<Seq<Neighbor>>;

    closed spec fn view(&self) -> Seq<Seq<Neighbor>> {
        lists_of(self.neighbors_list@)
    }
}

impl Graph {
    #[verifier::type_invariant]
    spec fn inv(&self) -> bool {
        &&& self.num_nodes == self.neighbors_list@.len()
        &&& well_formed(self@)
    }

    /// Takes ownership of ready-made adjacency lists, after checking that
    /// there is one list per node and that every neighbour is a node.
    pub fn new(num_nodes: u16, neighbors_list: Vec<Vec<Neighbor>>) -> (r: Result<Self, GraphError>)
        ensures
            match r {
                Ok(g) => {
                    &&& g@ == lists_of(neighbors_list@)
                    &&& g@.len() == num_nodes
                    &&& well_formed(g@)
                },
                Err(GraphError::NodeCountMismatch) => neighbors_list@.len() != num_nodes,
                Err(GraphError::InvalidNodeIndex) => {
                    &&& neighbors_list@.len() == num_nodes
                    &&& !well_formed(lists_of(neighbors_list@))
                },
            },
    {
        if neighbors_list.len() != num_nodes as usize {
            return Err(GraphError::NodeCountMismatch);
        }
        let ghost adj = lists_of(neighbors_list@);
        let mut u: usize = 0;
        while u < neighbors_list.len()
            invariant
                u <= neighbors_list@.len() == num_nodes,
                adj == lists_of(neighbors_list@),
                forall|x: int, i: int|
                    0 <= x < u && 0 <= i < adj[x].len() ==> (#[trigger] adj[x][i]).node < num_nodes,
            decreases neighbors_list@.len() - u,
        {
            let list = &neighbors_list[u];
            let mut i: usize = 0;
            while i < list.len()
                invariant
                    u < neighbors_list@.len() == num_nodes,
                    adj == lists_of(neighbors_list@),
                    list@ == adj[u as int],
                    i <= list@.len(),
                    forall|k: int| 0 <= k < i ==> (#[trigger] adj[u as int][k]).node < num_nodes,
                decreases list@.len() - i,
            {
                if list[i].node >= num_nodes {
                    assert(adj[u as int][i as int].node >= adj.len());
                    return Err(GraphError::InvalidNodeIndex);
                }
                i += 1;
            }
            u += 1;
        }
        Ok(Graph { num_nodes, neighbors_list })
    }

    /// Builds the graph with `num_nodes` nodes and the given edges. The
    /// neighbours of a node appear in the order of its edges in `edges`.
    pub fn build(num_nodes: u16, edges: &Vec<Edge>) -> (r: Result<Self, GraphError>)
        ensures
            match r {
                Ok(g) => {
                    &&& endpoints_below(edges@, num_nodes as int)
                    &&& g@ == grouped(num_nodes as int, edges@)
                    &&& well_formed(g@)
                },
                Err(e) => e == GraphError::InvalidNodeIndex && !endpoints_below(
                    edges@,
                    num_nodes as int,
                ),
            },
    {
        let mut lists: Vec<Vec<Neighbor>> = Vec::new();
        let mut u: u16 = 0;
        while u < num_nodes
            invariant
                u <= num_nodes,
                lists@.len() == u,
                forall|x: int| 0 <= x < u ==> (#[trigger] lists@[x])@ == Seq::<Neighbor>::empty(),
            decreases num_nodes - u,
        {
            lists.push(Vec::new());
            u += 1;
        }
        let mut k: usize = 0;
        while k < edges.len()
            invariant
                k <= edges@.len(),
                lists@.len() == num_nodes,
                forall|j: int| 0 <= j < k ==> (#[trigger] edges@[j]).a < num_nodes && edges@[j].b
                    < num_nodes,
                forall|x: int|
                    0 <= x < num_nodes ==> (#[trigger] lists@[x])@ == outgoing(
                        edges@.take(k as int),
                        x,
                    ),
            decreases edges@.len() - k,
        {
            let e = edges[k];
            if e.a >= num_nodes || e.b >= num_nodes {
                return Err(GraphError::InvalidNodeIndex);
            }
            let ghost before = lists@;
            lists[e.a as usize].push(Neighbor { node: e.b, weight: e.weight });
            proof {
                assert(edges@.take(k + 1).drop_last() == edges@.take(k as int));
                assert(edges@.take(k + 1).last() == e);
                assert forall|x: int| 0 <= x < num_nodes implies (#[trigger] lists@[x])@
                    == outgoing(edges@.take(k + 1), x) by {
                    assert(before[x]@ == outgoing(edges@.take(k as int), x));
                }
            }
            k += 1;
        }
        proof {
            assert(edges@.take(k as int) == edges@);
            assert(lists_of(lists@) == grouped(num_nodes as int, edges@));
            lemma_grouped_well_formed(num_nodes as int, edges@);
        }
        Ok(Graph { num_nodes, neighbors_list: lists })
    }

    /// The number of nodes.
    pub fn num_nodes(&self) -> (n: u16)
        ensures
            n == self@.len(),
            well_formed(self@),
    {
        proof {
            use_type_invariant(self);
        }
        self.num_nodes
    }

    /// The outgoing edges of `node`, in insertion order.
    pub fn neighbors(&self, node: u16) -> (r: Result<&Vec<Neighbor>, GraphError>)
        ensures
            match r {
                Ok(list) => node < self@.len() && list@ == self@[node as int],
                Err(e) => e == GraphError::InvalidNodeIndex && node >= self@.len(),
            },
    {
        if node < self.num_nodes() {
            Ok(self.edges_from(node))
        } else {
            Err(GraphError::InvalidNodeIndex)
        }
    }

    /// The outgoing edges of a node that is known to exist.
    pub(crate) fn edges_from(&self, node: u16) -> (list: &Vec<Neighbor>)
        requires
            node < self@.len(),
        ensures
            list@ == self@[node as int],
            well_formed(self@),
    {
        proof {
            use_type_invariant(self);
        }
        &self.neighbors_list[node as usize]
    }
}

/// Every neighbour that `outgoing` lists comes from an edge of `edges`.
pub proof fn lemma_outgoing_members(edges: Seq<Edge>, u: int, i: int) -> (k: int)
    requires
        0 <= i < outgoing(edges, u).len(),
    ensures
        0 <= k < edges.len(),
        edges[k].a == u,
        edges[k].b == outgoing(edges, u)[i].node,
        edges[k].weight == outgoing(edges, u)[i].weight,
    decreases edges.len(),
{
    let rest = outgoing(edges.drop_last(), u);
    if edges.last().a == u && i == rest.len() {
        edges.len() - 1
    } else {
        lemma_outgoing_members(edges.drop_last(), u, i)
    }
}

/// Edges with endpoints below `n` group into well-formed adjacency lists.
pub proof fn lemma_grouped_well_formed(n: int, edges: Seq<Edge>)
    requires
        0 <= n <= u16::MAX,
        endpoints_below(edges, n),
    ensures
        well_formed(grouped(n, edges)),
{
    let adj = grouped(n, edges);
    assert forall|u: int, i: int| 0 <= u < adj.len() && 0 <= i < adj[u].len() implies (
    #[trigger] adj[u][i]).node < adj.len() by {
        let k = lemma_outgoing_members(edges, u, i);
        assert(edges[k].b < n);
    }
}

} // verus!
