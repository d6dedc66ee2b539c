//! The array-scan single-source solver: repeatedly settle the closest
//! unsettled node, found by a linear scan over all nodes.

use vstd::prelude::*;
use crate::frontier::{
    UNREACHED, count_true, improve, initial, is_closest, lemma_closest_is_final, lemma_exhausted,
    lemma_initial, lemma_relax, lemma_relaxed, lemma_settle, relaxing, settle, settled,
};
use crate::graph::{Graph, GraphError, query_outcome};

verus! {

/// What [`closest_unvisited`] returns: the lowest index among the unvisited
/// nodes of least distance, provided that distance is below the sentinel.
pub open spec fn closest_unvisited_spec(
    distances: Seq<u32>,
    visited: Seq<bool>,
    r: Option<usize>,
) -> bool {
    match r {
        Some(c) => {
            &&& c < distances.len()
            &&& !visited[c as int]
            &&& distances[c as int] < UNREACHED
            &&& forall|i: int|
                0 <= i < distances.len() && !visited[i] ==> distances[c as int]
                    <= #[trigger] distances[i]
            &&& forall|i: int| 0 <= i < c && !visited[i] ==> distances[c as int] < #[trigger] distances[i]
        },
        None => forall|i: int|
            0 <= i < distances.len() && !visited[i] ==> #[trigger] distances[i] == UNREACHED,
    }
}

/// Scans for the unvisited node with the smallest tentative distance. Among
/// several at the same distance the lowest index wins.
pub fn closest_unvisited(distances: &Vec<u32>, visited: &Vec<bool>) -> (r: Option<usize>)
    requires
        distances@.len() == visited@.len(),
    ensures
        closest_unvisited_spec(distances@, visited@, r),
{
    let mut result: Option<usize> = None;
    let mut min_distance: u32 = u32::MAX;
    let mut i: usize = 0;
    while i < visited.len()
        invariant
            i <= visited@.len() == distances@.len(),
            result is None ==> min_distance == UNREACHED,
            result matches Some(c) ==> c < i && !visited@[c as int] && distances@[c as int]
                == min_distance && min_distance < UNREACHED,
            forall|k: int| 0 <= k < i && !visited@[k] ==> min_distance <= #[trigger] distances@[k],
            result matches Some(c) ==> forall|k: int|
                0 <= k < c && !visited@[k] ==> min_distance < #[trigger] distances@[k],
        decreases visited@.len() - i,
    {
        if !visited[i] && distances[i] < min_distance {
            min_distance = distances[i];
            result = Some(i);
        }
        i += 1;
    }
    result
}

impl Graph {
    /// The weight of a lightest walk from `start_node` to `end_node`, or `None`
    /// when there is no walk. Takes time quadratic in the number of nodes.
    pub fn shortest_path_scan(&self, start_node: u16, end_node: u16) -> (r: Result<
        Option<u32>,
        GraphError,
    >)
        ensures
            query_outcome(self@, start_node as int, end_node as int, r),
    {
        let n = self.num_nodes();
        if start_node >= n || end_node >= n {
            return Err(GraphError::InvalidNodeIndex);
        }
        let mut distances: Vec<u32> = Vec::new();
        let mut visited: Vec<bool> = Vec::new();
        let mut v: u16 = 0;
        while v < n
            invariant
                v <= n,
                start_node < n,
                distances@.len() == v,
                visited@.len() == v,
                forall|k: int|
                    0 <= k < v ==> #[trigger] distances@[k] == (if k == start_node {
                        0u32
                    } else {
                        UNREACHED
                    }),
                forall|k: int| 0 <= k < v ==> !#[trigger] visited@[k],
            decreases n - v,
        {
            distances.push(if v == start_node { 0 } else { u32::MAX });
            visited.push(false);
            v += 1;
        }
        let ghost adj = self@;
        let ghost s = start_node as int;
        let ghost mut st = initial(n as nat, s);
        proof {
            lemma_initial(adj, s);
            assert(st.dist == distances@);
            assert(st.done == visited@);
        }
        loop
            invariant
                adj == self@,
                n == adj.len(),
                s == start_node,
                end_node < n,
                settled(adj, s, st),
                st.dist == distances@,
                st.done == visited@,
                !st.done[end_node as int],
            decreases n - count_true(visited@),
        {
            let current = match closest_unvisited(&distances, &visited) {
                Some(c) => c,
                None => {
                    proof {
                        lemma_exhausted(adj, s, st, end_node as int);
                    }
                    return Ok(None);
                },
            };
            proof {
                assert(is_closest(st, current as int));
                lemma_closest_is_final(adj, s, st, current as int);
                lemma_settle(adj, s, st, current as int);
                st = settle(st, current as int);
            }
            visited[current] = true;
            if current == end_node as usize {
                return Ok(Some(distances[current]));
            }
            let list = self.edges_from(current as u16);
            let mut j: usize = 0;
            while j < list.len()
                invariant
                    adj == self@,
                    n == adj.len(),
                    current < n,
                    current != end_node,
                    end_node < n,
                    list@ == adj[current as int],
                    j <= list@.len(),
                    relaxing(adj, s, st, current as int, j as int),
                    st.dist == distances@,
                    st.done == visited@,
                    !st.done[end_node as int],
                decreases list@.len() - j,
            {
                let neighbor = list[j];
                proof {
                    lemma_relax(adj, s, st, current as int, j as int);
                }
                let new_distance = distances[current].saturating_add(neighbor.weight as u32);
                if new_distance < distances[neighbor.node as usize] {
                    distances[neighbor.node as usize] = new_distance;
                    proof {
                        st = improve(adj, st, current as int, j as int);
                    }
                }
                j += 1;
            }
            proof {
                lemma_relaxed(adj, s, st, current as int);
            }
        }
    }
}

} // verus!
