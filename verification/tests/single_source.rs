use shortest_paths::array_scan::closest_unvisited;
use shortest_paths::graph::{Edge, Graph, GraphError};
use shortest_paths::single_source::Strategy;

fn chain() -> Graph {
    Graph::build(3, &vec![Edge::new(0, 1, 4), Edge::new(1, 2, 3)]).unwrap()
}

/// A small deterministic generator, so that the larger cases need no outside crate.
fn next(state: &mut u64) -> u64 {
    *state = state.wrapping_mul(6364136223846793005).wrapping_add(1442695040888963407);
    *state >> 33
}

fn scrambled(nodes: u16, edges: usize, max_weight: u64, seed: u64) -> Vec<Edge> {
    let mut state = seed;
    let mut out = Vec::new();
    for _ in 0..edges {
        let a = (next(&mut state) % nodes as u64) as u16;
        let b = (next(&mut state) % nodes as u64) as u16;
        let w = (next(&mut state) % (max_weight + 1)) as u16;
        out.push(Edge::new(a, b, w));
    }
    out
}

/// Distances by repeated relaxation of all edges, to compare the solvers with.
fn by_relaxation(nodes: u16, edges: &Vec<Edge>, start: u16) -> Vec<Option<u32>> {
    let mut dist: Vec<Option<u32>> = vec![None; nodes as usize];
    dist[start as usize] = Some(0);
    for _ in 0..nodes {
        for e in edges {
            if let Some(d) = dist[e.a as usize] {
                let through = d + e.weight as u32;
                match dist[e.b as usize] {
                    Some(old) if old <= through => {}
                    _ => dist[e.b as usize] = Some(through),
                }
            }
        }
    }
    dist
}

#[test]
fn chain_of_two_edges_adds_up() {
    let g = chain();
    assert_eq!(g.shortest_path_scan(0, 2), Ok(Some(7)));
    assert_eq!(g.shortest_path_queue(0, 2), Ok(Some(7)));
    assert_eq!(g.shortest_path(0, 2), Ok(Some(7)));
    assert_eq!(g.shortest_path_with(Strategy::ArrayScan, 0, 2), Ok(Some(7)));
    assert_eq!(g.shortest_path_with(Strategy::PriorityQueue, 0, 2), Ok(Some(7)));
}

#[test]
fn no_edges_means_unreachable() {
    let g = Graph::build(2, &vec![]).unwrap();
    assert_eq!(g.shortest_path_scan(0, 1), Ok(None));
    assert_eq!(g.shortest_path_queue(0, 1), Ok(None));
    assert_eq!(g.shortest_path(0, 1), Ok(None));
}

#[test]
fn edges_are_directed() {
    let g = chain();
    assert_eq!(g.shortest_path_scan(2, 0), Ok(None));
    assert_eq!(g.shortest_path_queue(2, 0), Ok(None));
    assert_eq!(g.shortest_path_scan(1, 0), Ok(None));
    assert_eq!(g.shortest_path_queue(1, 0), Ok(None));
}

#[test]
fn a_node_is_at_distance_zero_from_itself() {
    let g = chain();
    for v in 0..3u16 {
        assert_eq!(g.shortest_path_scan(v, v), Ok(Some(0)));
        assert_eq!(g.shortest_path_queue(v, v), Ok(Some(0)));
    }
}

#[test]
fn the_lighter_detour_wins() {
    let edges = vec![
        Edge::new(0, 3, 10),
        Edge::new(0, 1, 2),
        Edge::new(1, 2, 3),
        Edge::new(2, 3, 4),
    ];
    let g = Graph::build(4, &edges).unwrap();
    assert_eq!(g.shortest_path_scan(0, 3), Ok(Some(9)));
    assert_eq!(g.shortest_path_queue(0, 3), Ok(Some(9)));
}

#[test]
fn the_lightest_of_parallel_edges_counts() {
    let edges = vec![Edge::new(0, 1, 10), Edge::new(0, 1, 3), Edge::new(0, 1, 7)];
    let g = Graph::build(2, &edges).unwrap();
    assert_eq!(g.shortest_path_scan(0, 1), Ok(Some(3)));
    assert_eq!(g.shortest_path_queue(0, 1), Ok(Some(3)));
}

#[test]
fn edges_of_weight_zero_are_free() {
    let edges = vec![
        Edge::new(0, 1, 0),
        Edge::new(1, 2, 0),
        Edge::new(2, 0, 0),
        Edge::new(2, 3, 5),
    ];
    let g = Graph::build(4, &edges).unwrap();
    assert_eq!(g.shortest_path_scan(0, 2), Ok(Some(0)));
    assert_eq!(g.shortest_path_queue(0, 2), Ok(Some(0)));
    assert_eq!(g.shortest_path_scan(1, 3), Ok(Some(5)));
    assert_eq!(g.shortest_path_queue(1, 3), Ok(Some(5)));
}

#[test]
fn a_queue_entry_made_stale_by_a_later_improvement_is_skipped() {
    // Node 2 is queued at 10 first and at 3 later; node 3 hangs off node 2.
    let edges = vec![
        Edge::new(0, 2, 10),
        Edge::new(0, 1, 1),
        Edge::new(1, 2, 2),
        Edge::new(2, 3, 1),
        Edge::new(3, 4, 20),
    ];
    let g = Graph::build(5, &edges).unwrap();
    assert_eq!(g.shortest_path_queue(0, 2), Ok(Some(3)));
    assert_eq!(g.shortest_path_queue(0, 3), Ok(Some(4)));
    assert_eq!(g.shortest_path_queue(0, 4), Ok(Some(24)));
    assert_eq!(g.shortest_path_scan(0, 4), Ok(Some(24)));
}

#[test]
fn the_heaviest_edges_do_not_saturate() {
    let edges = vec![
        Edge::new(0, 1, u16::MAX),
        Edge::new(1, 2, u16::MAX),
        Edge::new(2, 3, u16::MAX),
    ];
    let g = Graph::build(4, &edges).unwrap();
    assert_eq!(g.shortest_path_scan(0, 3), Ok(Some(3 * 65535)));
    assert_eq!(g.shortest_path_queue(0, 3), Ok(Some(3 * 65535)));
}

#[test]
fn a_node_index_out_of_range_is_an_error() {
    let g = chain();
    for (s, t) in [(3u16, 0u16), (0, 3), (3, 3), (u16::MAX, 0)] {
        assert_eq!(g.shortest_path_scan(s, t), Err(GraphError::InvalidNodeIndex));
        assert_eq!(g.shortest_path_queue(s, t), Err(GraphError::InvalidNodeIndex));
        assert_eq!(g.shortest_path(s, t), Err(GraphError::InvalidNodeIndex));
    }
    let empty = Graph::build(0, &vec![]).unwrap();
    assert_eq!(empty.shortest_path(0, 0), Err(GraphError::InvalidNodeIndex));
}

#[test]
fn both_solvers_agree_on_every_pair() {
    for seed in 1..=6u64 {
        let nodes = 12u16;
        let edges = scrambled(nodes, 30, 50, seed);
        let g = Graph::build(nodes, &edges).unwrap();
        for s in 0..nodes {
            let expected = by_relaxation(nodes, &edges, s);
            for t in 0..nodes {
                let scan = g.shortest_path_scan(s, t);
                let queue = g.shortest_path_queue(s, t);
                assert_eq!(scan, queue);
                assert_eq!(scan, Ok(expected[t as usize]));
                assert_eq!(g.shortest_path(s, t), scan);
            }
        }
    }
}

#[test]
fn both_solvers_agree_with_many_ties() {
    let nodes = 9u16;
    let edges = scrambled(nodes, 40, 1, 99);
    let g = Graph::build(nodes, &edges).unwrap();
    for s in 0..nodes {
        let expected = by_relaxation(nodes, &edges, s);
        for t in 0..nodes {
            assert_eq!(g.shortest_path_scan(s, t), Ok(expected[t as usize]));
            assert_eq!(g.shortest_path_queue(s, t), Ok(expected[t as usize]));
        }
    }
}

#[test]
fn the_scan_prefers_the_lowest_index_among_the_closest() {
    let distances = vec![7, 3, 9, 3, 3];
    assert_eq!(closest_unvisited(&distances, &vec![false; 5]), Some(1));
    assert_eq!(
        closest_unvisited(&distances, &vec![false, true, false, false, false]),
        Some(3)
    );
    assert_eq!(
        closest_unvisited(&distances, &vec![false, true, false, true, true]),
        Some(0)
    );
}

#[test]
fn the_scan_finds_nothing_among_visited_and_unreached_nodes() {
    let distances = vec![0, u32::MAX, 5, u32::MAX];
    assert_eq!(
        closest_unvisited(&distances, &vec![true, false, true, false]),
        None
    );
    assert_eq!(closest_unvisited(&vec![], &vec![]), None);
}

#[test]
fn dense_graphs_are_scanned_and_sparse_ones_queued() {
    // 4 nodes: dense from one edge on, since 16 * 1 >= 4 * 4.
    let none = Graph::build(4, &vec![]).unwrap();
    assert_eq!(none.preferred_strategy(), Strategy::PriorityQueue);
    let one = Graph::build(4, &vec![Edge::new(0, 1, 1)]).unwrap();
    assert_eq!(one.preferred_strategy(), Strategy::ArrayScan);
    // 20 nodes: 16 * 24 = 384 < 400 <= 16 * 25.
    let sparse = Graph::build(20, &scrambled(20, 24, 9, 5)).unwrap();
    assert_eq!(sparse.preferred_strategy(), Strategy::PriorityQueue);
    let dense = Graph::build(20, &scrambled(20, 25, 9, 5)).unwrap();
    assert_eq!(dense.preferred_strategy(), Strategy::ArrayScan);
    let empty = Graph::build(0, &vec![]).unwrap();
    assert_eq!(empty.preferred_strategy(), Strategy::ArrayScan);
}
