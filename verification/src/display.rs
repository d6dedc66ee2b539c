//! A graph and a test case as text, for people to read.

use vstd::prelude::*;
use vstd::string::StringExecFns;
use crate::graph::{Graph, Neighbor};
use crate::test_case::TestCase;
use crate::text::{decimal, push_decimal};

verus! {

/// One neighbour: its node, and its weight in brackets.
pub open spec fn neighbor_text(neighbor: Neighbor) -> Seq<char> {
    decimal(neighbor.node as nat) + " (weight: "@ + decimal(neighbor.weight as nat) + ")"@
}

/// The first `count` neighbours of a list, separated by commas.
pub open spec fn neighbors_text(list: Seq<Neighbor>, count: nat) -> Seq<char>
    decreases count,
{
    if count == 0 {
        Seq::empty()
    } else if count == 1 {
        neighbor_text(list[0])
    } else {
        neighbors_text(list, (count - 1) as nat) + ", "@ + neighbor_text(list[count - 1])
    }
}

/// The line for a node: nothing where the node has no neighbours.
pub open spec fn node_text(node: nat, list: Seq<Neighbor>) -> Seq<char> {
    if list.len() == 0 {
        Seq::empty()
    } else {
        "  Node "@ + decimal(node) + ": "@ + neighbors_text(list, list.len()) + "\n"@
    }
}

/// The lines for the first `count` nodes.
pub open spec fn nodes_text(adj: Seq<Seq<Neighbor>>, count: nat) -> Seq<char>
    decreases count,
{
    if count == 0 {
        Seq::empty()
    } else {
        nodes_text(adj, (count - 1) as nat) + node_text((count - 1) as nat, adj[count - 1])
    }
}

/// A graph as text: a heading with the number of nodes, and one line for
/// each node that has neighbours.
pub open spec fn graph_text(adj: Seq<Seq<Neighbor>>) -> Seq<char> {
    "Graph with "@ + decimal(adj.len()) + " nodes:\n"@ + nodes_text(adj, adj.len())
}

/// The first `count` numbers of a list, separated by commas.
pub open spec fn numbers_text(list: Seq<u16>, count: nat) -> Seq<char>
    decreases count,
{
    if count == 0 {
        Seq::empty()
    } else if count == 1 {
        decimal(list[0] as nat)
    } else {
        numbers_text(list, (count - 1) as nat) + ", "@ + decimal(list[count - 1] as nat)
    }
}

/// A test case as text: its graph, its start node and its queries.
pub open spec fn case_text(adj: Seq<Seq<Neighbor>>, start_node: u16, queries: Seq<u16>) -> Seq<
    char,
> {
    "Test Case:\n"@ + graph_text(adj) + "  Start node: "@ + decimal(start_node as nat) + "\n"@
        + "  Queries: ["@ + numbers_text(queries, queries.len()) + "]\n"@
}

fn push_neighbor(out: &mut String, neighbor: Neighbor)
    ensures
        final(out)@ == old(out)@ + neighbor_text(neighbor),
{
    push_decimal(out, neighbor.node as u32);
    out.append(" (weight: ");
    push_decimal(out, neighbor.weight as u32);
    out.append(")");
}

fn push_graph(out: &mut String, graph: &Graph)
    ensures
        final(out)@ == old(out)@ + graph_text(graph@),
{
    let n = graph.num_nodes();
    out.append("Graph with ");
    push_decimal(out, n as u32);
    out.append(" nodes:\n");
    let ghost head = out@;
    let mut node: u16 = 0;
    while node < n
        invariant
            node <= n == graph@.len(),
            out@ == head + nodes_text(graph@, node as nat),
        decreases n - node,
    {
        let list = graph.edges_from(node);
        if list.len() > 0 {
            out.append("  Node ");
            push_decimal(out, node as u32);
            out.append(": ");
            let ghost lead = out@;
            let mut i: usize = 0;
            while i < list.len()
                invariant
                    i <= list@.len(),
                    out@ == lead + neighbors_text(list@, i as nat),
                decreases list@.len() - i,
            {
                if i > 0 {
                    out.append(", ");
                }
                push_neighbor(out, list[i]);
                i += 1;
            }
            out.append("\n");
        }
        node += 1;
    }
}

impl Graph {
    /// The graph as text: a heading with the number of nodes, and one line
    /// for each node that has neighbours.
    pub fn to_text(&self) -> (text: String)
        ensures
            text@ == graph_text(self@),
    {
        let mut out = String::new();
        push_graph(&mut out, self);
        out
    }
}

impl TestCase {
    /// The test case as text: its graph, its start node and its queries.
    pub fn to_text(&self) -> (text: String)
        ensures
            text@ == case_text(self.graph@, self.start_node, self.queries@),
    {
        let mut out = String::new();
        out.append("Test Case:\n");
        push_graph(&mut out, &self.graph);
        out.append("  Start node: ");
        push_decimal(&mut out, self.start_node as u32);
        out.append("\n");
        out.append("  Queries: [");
        let ghost lead = out@;
        let mut i: usize = 0;
        while i < self.queries.len()
            invariant
                i <= self.queries@.len(),
                out@ == lead + numbers_text(self.queries@, i as nat),
            decreases self.queries@.len() - i,
        {
            if i > 0 {
                out.append(", ");
            }
            push_decimal(&mut out, self.queries[i] as u32);
            i += 1;
        }
        out.append("]\n");
        out
    }
}

} // verus!
