//! The priority-queue single-source solver: settle nodes in the order in
//! which a min-queue of `(distance, node)` entries hands them out, skipping
//! entries that a later improvement has made stale.

use vstd::prelude::*;
use vstd::multiset::Multiset;
use crate::frontier::{
    Search, UNREACHED, count_true, improve, initial, is_closest, lemma_closest_is_final,
    lemma_count_bounded, lemma_exhausted, lemma_initial, lemma_relax, lemma_relaxed, lemma_settle,
    relaxing, settle, settled,
};
use crate::graph::{Graph, GraphError, query_outcome};
use crate::min_queue::{Entry, MinQueue, entry_le, is_least};

verus! {

/// How the queue relates to the search: every entry names a node and is no
/// better than what is known of it; the current distance of a reached node
/// is queued exactly once while the node is unsettled, and not at all once
/// it is settled.
pub open spec fn queue_matches(st: Search, queue: Multiset<Entry>) -> bool {
    let n = st.dist.len();
    &&& forall|e: Entry| #[trigger]
        queue.count(e) > 0 ==> e.1 < n && st.dist[e.1 as int] <= e.0 < UNREACHED
    &&& forall|v: int|
        0 <= v < n && st.done[v] ==> queue.count((#[trigger] st.dist[v], v as u16)) == 0
    &&& forall|v: int|
        0 <= v < n && !st.done[v] && st.dist[v] < UNREACHED ==> queue.count(
            (#[trigger] st.dist[v], v as u16),
        ) == 1
}

/// A smallest entry that is not stale belongs to the closest unsettled node.
proof fn lemma_least_is_closest(st: Search, queue: Multiset<Entry>, e: Entry)
    requires
        st.dist.len() == st.done.len(),
        st.dist.len() <= u16::MAX,
        queue_matches(st, queue),
        is_least(queue, e),
        e.0 <= st.dist[e.1 as int],
    ensures
        is_closest(st, e.1 as int),
        e.0 == st.dist[e.1 as int],
        queue_matches(settle(st, e.1 as int), queue.remove(e)),
{
    broadcast use vstd::multiset::group_multiset_axioms;

    let u = e.1 as int;
    let n = st.dist.len();
    assert(queue.count(e) > 0);
    assert(e == (st.dist[u], u as u16));
    if st.done[u] {
        assert(queue.count((st.dist[u], u as u16)) == 0);
    }
    assert forall|y: int| 0 <= y < n && !#[trigger] st.done[y] implies st.dist[u]
        <= st.dist[y] by {
        if st.dist[y] < UNREACHED {
            let f = (st.dist[y], y as u16);
            assert(queue.count(f) == 1);
            assert(entry_le(e, f));
        }
    }
    let after = settle(st, u);
    let rest = queue.remove(e);
    assert forall|f: Entry| #[trigger] rest.count(f) > 0 implies f.1 < n
        && after.dist[f.1 as int] <= f.0 < UNREACHED by {
        assert(queue.count(f) > 0);
    }
    assert forall|v: int| 0 <= v < n && after.done[v] implies rest.count(
        (#[trigger] after.dist[v], v as u16),
    ) == 0 by {
        if v != u {
            assert(st.done[v]);
            assert(queue.count((st.dist[v], v as u16)) == 0);
        }
    }
    assert forall|v: int|
        0 <= v < n && !after.done[v] && after.dist[v] < UNREACHED implies rest.count(
        (#[trigger] after.dist[v], v as u16),
    ) == 1 by {
        assert(v != u);
        assert(!st.done[v]);
        assert(queue.count((st.dist[v], v as u16)) == 1);
    }
}

/// Dropping a stale entry changes nothing that matters.
proof fn lemma_drop_stale(st: Search, queue: Multiset<Entry>, e: Entry)
    requires
        st.dist.len() == st.done.len(),
        st.dist.len() <= u16::MAX,
        queue_matches(st, queue),
        queue.count(e) > 0,
        e.0 > st.dist[e.1 as int],
    ensures
        queue_matches(st, queue.remove(e)),
{
    broadcast use vstd::multiset::group_multiset_axioms;

    let n = st.dist.len();
    let rest = queue.remove(e);
    assert forall|f: Entry| #[trigger] rest.count(f) > 0 implies f.1 < n && st.dist[f.1 as int]
        <= f.0 < UNREACHED by {
        assert(queue.count(f) > 0);
    }
    assert forall|v: int| 0 <= v < n && st.done[v] implies rest.count(
        (#[trigger] st.dist[v], v as u16),
    ) == 0 by {
        assert(queue.count((st.dist[v], v as u16)) == 0);
    }
    assert forall|v: int| 0 <= v < n && !st.done[v] && st.dist[v] < UNREACHED implies rest.count(
        (#[trigger] st.dist[v], v as u16),
    ) == 1 by {
        assert(queue.count((st.dist[v], v as u16)) == 1);
    }
}

/// Queueing the improved distance of an unsettled node keeps the queue in step.
proof fn lemma_queue_improved(st: Search, queue: Multiset<Entry>, t: int, nd: u32, after: Search)
    requires
        st.dist.len() == st.done.len(),
        st.dist.len() <= u16::MAX,
        queue_matches(st, queue),
        0 <= t < st.dist.len(),
        !st.done[t],
        nd < st.dist[t],
        after.dist == st.dist.update(t, nd),
        after.done == st.done,
    ensures
        queue_matches(after, queue.insert((nd, t as u16))),
{
    broadcast use vstd::multiset::group_multiset_axioms;

    let n = st.dist.len();
    let e = (nd, t as u16);
    let more = queue.insert(e);
    assert(queue.count(e) == 0) by {
        if queue.count(e) > 0 {
            assert(st.dist[e.1 as int] <= e.0);
        }
    }
    assert forall|f: Entry| #[trigger] more.count(f) > 0 implies f.1 < n
        && after.dist[f.1 as int] <= f.0 < UNREACHED by {
        if f != e {
            assert(queue.count(f) > 0);
        }
    }
    assert forall|v: int| 0 <= v < n && after.done[v] implies more.count(
        (#[trigger] after.dist[v], v as u16),
    ) == 0 by {
        assert(v != t);
        assert(queue.count((st.dist[v], v as u16)) == 0);
    }
    assert forall|v: int|
        0 <= v < n && !after.done[v] && after.dist[v] < UNREACHED implies more.count(
        (#[trigger] after.dist[v], v as u16),
    ) == 1 by {
        if v != t {
            assert(queue.count((st.dist[v], v as u16)) == 1);
        }
    }
}

impl Graph {
    /// The weight of a lightest walk from `start_node` to `end_node`, or `None`
    /// when there is no walk. Takes time `O(E log V)`.
    pub fn shortest_path_queue(&self, start_node: u16, end_node: u16) -> (r: Result<
        Option<u32>,
        GraphError,
    >)
        ensures
            query_outcome(self@, start_node as int, end_node as int, r),
    {
        let n = self.num_nodes();
        if start_node >= n || end_node >= n {
            return Err(GraphError::InvalidNodeIndex);
        }
        let mut distances: Vec<u32> = Vec::new();
        let mut v: u16 = 0;
        while v < n
            invariant
                v <= n,
                start_node < n,
                distances@.len() == v,
                forall|k: int|
                    0 <= k < v ==> #[trigger] distances@[k] == (if k == start_node {
                        0u32
                    } else {
                        UNREACHED
                    }),
            decreases n - v,
        {
            distances.push(if v == start_node { 0 } else { u32::MAX });
            v += 1;
        }
        let mut heap = MinQueue::new();
        heap.push((0u32, start_node));

        let ghost adj = self@;
        let ghost s = start_node as int;
        let ghost mut st = initial(n as nat, s);
        proof {
            broadcast use vstd::multiset::group_multiset_axioms;

            lemma_initial(adj, s);
            assert(st.dist == distances@);
            assert(queue_matches(st, heap@));
        }
        loop
            invariant
                adj == self@,
                n == adj.len(),
                s == start_node,
                end_node < n,
                settled(adj, s, st),
                st.dist == distances@,
                !st.done[end_node as int],
                queue_matches(st, heap@),
            decreases n - count_true(st.done), heap@.len(),
        {
            let ghost queued = heap@;
            let (dist, node) = match heap.pop() {
                Some(e) => e,
                None => {
                    proof {
                        assert forall|y: int|
                            0 <= y < adj.len() && !#[trigger] st.done[y] implies st.dist[y]
                            == UNREACHED by {
                            if st.dist[y] < UNREACHED {
                                assert(queued.count((st.dist[y], y as u16)) == 1);
                                assert(queued.len() > 0);
                            }
                        }
                        lemma_exhausted(adj, s, st, end_node as int);
                    }
                    return Ok(None);
                },
            };
            proof {
                lemma_count_bounded(st.done);
            }
            if node == end_node {
                proof {
                    if dist > st.dist[node as int] {
                        assert(st.dist[node as int] < UNREACHED);
                        assert(queued.count((st.dist[node as int], node)) == 1);
                        assert(entry_le((dist, node), (st.dist[node as int], node)));
                    }
                    lemma_least_is_closest(st, queued, (dist, node));
                    lemma_closest_is_final(adj, s, st, node as int);
                }
                return Ok(Some(dist));
            }
            if dist > distances[node as usize] {
                proof {
                    lemma_drop_stale(st, queued, (dist, node));
                }
            } else {
                proof {
                    lemma_least_is_closest(st, queued, (dist, node));
                    lemma_settle(adj, s, st, node as int);
                    st = settle(st, node as int);
                }
                let ghost marked = st.done;
                let list = self.edges_from(node);
                let mut j: usize = 0;
                while j < list.len()
                    invariant
                        adj == self@,
                        n == adj.len(),
                        node < n,
                        node != end_node,
                        end_node < n,
                        list@ == adj[node as int],
                        j <= list@.len(),
                        relaxing(adj, s, st, node as int, j as int),
                        st.dist == distances@,
                        dist == st.dist[node as int],
                        !st.done[end_node as int],
                        queue_matches(st, heap@),
                        st.done == marked,
                    decreases list@.len() - j,
                {
                    let neighbor = list[j];
                    proof {
                        lemma_relax(adj, s, st, node as int, j as int);
                    }
                    let new_distance = dist.saturating_add(neighbor.weight as u32);
                    if new_distance < distances[neighbor.node as usize] {
                        proof {
                            let after = improve(adj, st, node as int, j as int);
                            lemma_queue_improved(
                                st,
                                heap@,
                                neighbor.node as int,
                                new_distance,
                                after,
                            );
                            st = after;
                        }
                        distances[neighbor.node as usize] = new_distance;
                        heap.push((new_distance, neighbor.node));
                    }
                    j += 1;
                }
                proof {
                    lemma_relaxed(adj, s, st, node as int);
                }
            }
        }
    }
}

} // verus!
