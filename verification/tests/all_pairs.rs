use shortest_paths::all_pairs::{Classification, DistanceMatrix};
use shortest_paths::graph::GraphError;
use shortest_paths::matrix::{MatrixGraph, SignedEdge, FLOOR, INFINITE};

fn distances(nodes: u16, edges: &[(u16, u16, i32)]) -> DistanceMatrix {
    let edges: Vec<SignedEdge> = edges
        .iter()
        .map(|&(a, b, w)| SignedEdge::new(a, b, w))
        .collect();
    MatrixGraph::build(nodes, &edges).unwrap().all_pairs()
}

fn cells(d: &DistanceMatrix) -> Vec<Vec<i64>> {
    let n = d.num_nodes();
    (0..n)
        .map(|u| (0..n).map(|v| d.cell(u, v).unwrap()).collect())
        .collect()
}

#[test]
fn one_way_edge_is_impossible_backwards() {
    let d = distances(2, &[(0, 1, 5)]);
    assert_eq!(d.classify(1, 0), Ok(Classification::Impossible));
    assert_eq!(d.classify(0, 1), Ok(Classification::Distance(5)));
    assert_eq!(d.classify(0, 0), Ok(Classification::Distance(0)));
    assert_eq!(d.classify(1, 1), Ok(Classification::Distance(0)));
}

#[test]
fn negative_cycle_of_two_nodes_is_negative_infinity() {
    let d = distances(2, &[(0, 1, 2), (1, 0, -3)]);
    assert_eq!(d.classify(0, 1), Ok(Classification::NegativeInfinity));
    assert_eq!(d.classify(0, 0), Ok(Classification::NegativeInfinity));
    assert_eq!(d.classify(1, 0), Ok(Classification::NegativeInfinity));
    assert_eq!(d.classify(1, 1), Ok(Classification::NegativeInfinity));
}

#[test]
fn the_rounds_follow_the_order_of_the_nodes() {
    let d = distances(2, &[(0, 1, 2), (1, 0, -3)]);
    assert_eq!(cells(&d), vec![vec![-1, 1], vec![-4, -2]]);
}

#[test]
fn duplicate_edges_count_with_their_lightest() {
    let d = distances(2, &[(0, 1, 10), (0, 1, 3)]);
    assert_eq!(d.classify(0, 1), Ok(Classification::Distance(3)));
}

#[test]
fn distances_add_up_along_the_lightest_walk() {
    let d = distances(
        4,
        &[(0, 1, 4), (1, 2, 3), (0, 2, 9), (2, 3, -2), (3, 1, 1)],
    );
    assert_eq!(d.classify(0, 1), Ok(Classification::Distance(4)));
    assert_eq!(d.classify(0, 2), Ok(Classification::Distance(7)));
    assert_eq!(d.classify(0, 3), Ok(Classification::Distance(5)));
    assert_eq!(d.classify(3, 2), Ok(Classification::Distance(4)));
    assert_eq!(d.classify(2, 1), Ok(Classification::Distance(-1)));
    assert_eq!(d.classify(1, 0), Ok(Classification::Impossible));
    assert_eq!(d.classify(3, 0), Ok(Classification::Impossible));
}

#[test]
fn a_negative_edge_without_a_cycle_gives_a_negative_distance() {
    let d = distances(3, &[(0, 1, -5), (1, 2, -7)]);
    assert_eq!(d.classify(0, 2), Ok(Classification::Distance(-12)));
    assert_eq!(d.classify(2, 0), Ok(Classification::Impossible));
}

#[test]
fn a_negative_edge_next_to_an_unreachable_pair_leaves_it_impossible() {
    // 0 has no way to 1 or 2, though 1 -> 2 is negative.
    let d = distances(3, &[(1, 2, -5)]);
    assert_eq!(d.classify(0, 2), Ok(Classification::Impossible));
    assert_eq!(d.cell(0, 2), Ok(INFINITE));
    assert_eq!(d.classify(0, 1), Ok(Classification::Impossible));
    assert_eq!(d.classify(1, 2), Ok(Classification::Distance(-5)));
}

#[test]
fn distances_are_not_symmetric() {
    let d = distances(3, &[(0, 1, 1), (1, 2, 1), (2, 0, 10)]);
    assert_eq!(d.classify(0, 2), Ok(Classification::Distance(2)));
    assert_eq!(d.classify(2, 0), Ok(Classification::Distance(10)));
    assert_ne!(d.classify(0, 1), d.classify(1, 0));
}

#[test]
fn a_negative_cycle_taints_only_the_pairs_that_can_pass_it() {
    // 0 -> 1 -> 2 -> 1 with a negative cycle on {1, 2}; 2 -> 3; 4 -> 0; 0 -> 5.
    let d = distances(
        6,
        &[(0, 1, 1), (1, 2, 1), (2, 1, -3), (2, 3, 1), (4, 0, 1), (0, 5, 7)],
    );
    assert_eq!(d.classify(0, 3), Ok(Classification::NegativeInfinity));
    assert_eq!(d.classify(4, 3), Ok(Classification::NegativeInfinity));
    assert_eq!(d.classify(1, 1), Ok(Classification::NegativeInfinity));
    assert_eq!(d.classify(2, 2), Ok(Classification::NegativeInfinity));
    assert_eq!(d.classify(0, 1), Ok(Classification::NegativeInfinity));
    assert_eq!(d.classify(0, 5), Ok(Classification::Distance(7)));
    assert_eq!(d.classify(4, 5), Ok(Classification::Distance(8)));
    assert_eq!(d.classify(4, 0), Ok(Classification::Distance(1)));
    assert_eq!(d.classify(0, 0), Ok(Classification::Distance(0)));
    assert_eq!(d.classify(3, 3), Ok(Classification::Distance(0)));
    assert_eq!(d.classify(3, 1), Ok(Classification::Impossible));
    assert_eq!(d.classify(5, 0), Ok(Classification::Impossible));
}

#[test]
fn a_negative_self_loop_is_a_negative_cycle() {
    let d = distances(3, &[(0, 1, 1), (1, 1, -1), (1, 2, 1)]);
    assert_eq!(d.classify(1, 1), Ok(Classification::NegativeInfinity));
    assert_eq!(d.classify(0, 2), Ok(Classification::NegativeInfinity));
    assert_eq!(d.classify(0, 0), Ok(Classification::Distance(0)));
    assert_eq!(d.classify(2, 2), Ok(Classification::Distance(0)));
}

#[test]
fn a_node_on_a_longer_negative_cycle_keeps_a_zero_cell_but_is_classified() {
    // 0 <-> 1 costs 2 in all; the loop at 1 is negative. The cell (0, 0)
    // stays 0, and the scan over the diagonal still finds node 1.
    let d = distances(2, &[(0, 1, 1), (1, 0, 1), (1, 1, -100)]);
    assert_eq!(cells(&d), vec![vec![0, -99], vec![-99, -200]]);
    assert_eq!(d.classify(0, 0), Ok(Classification::NegativeInfinity));
    // Here the triangle inequality does not hold: 0 > -99 + -99.
    let c = cells(&d);
    assert!(c[0][0] > c[0][1] + c[1][0]);
}

#[test]
fn the_triangle_inequality_holds_without_negative_cycles() {
    let d = distances(
        5,
        &[
            (0, 1, 4),
            (1, 2, -3),
            (2, 3, 2),
            (3, 4, -1),
            (0, 3, 5),
            (4, 0, 6),
            (1, 4, 9),
        ],
    );
    let c = cells(&d);
    for u in 0..5 {
        assert_eq!(c[u][u], 0);
        for v in 0..5 {
            for k in 0..5 {
                if c[u][k] < INFINITE && c[k][v] < INFINITE {
                    assert!(c[u][v] <= c[u][k] + c[k][v]);
                }
            }
        }
    }
    assert_eq!(d.classify(0, 4), Ok(Classification::Distance(2)));
    assert_eq!(d.classify(4, 2), Ok(Classification::Distance(7)));
}

#[test]
fn computing_twice_gives_the_same_matrix() {
    let edges = [(0u16, 1u16, 4), (1, 2, -3), (2, 0, 1), (2, 3, 8), (3, 3, -1)];
    let once = distances(4, &edges);
    let again = distances(4, &edges);
    assert_eq!(cells(&once), cells(&again));
    for u in 0..4 {
        for v in 0..4 {
            assert_eq!(once.classify(u, v), again.classify(u, v));
        }
    }
}

#[test]
fn sums_are_raised_to_the_floor() {
    // Every round at least doubles the cells of this clique; after 31
    // doublings of -2^31 the floor is reached.
    let nodes = 40u16;
    let mut edges = Vec::new();
    for a in 0..nodes {
        for b in 0..nodes {
            edges.push((a, b, i32::MIN));
        }
    }
    let d = distances(nodes, &edges);
    assert_eq!(FLOOR, -INFINITE);
    for row in cells(&d) {
        for cell in row {
            assert_eq!(cell, FLOOR);
        }
    }
    assert_eq!(d.classify(0, 39), Ok(Classification::NegativeInfinity));
}

#[test]
fn a_graph_without_nodes_has_an_empty_matrix() {
    let d = distances(0, &[]);
    assert_eq!(d.num_nodes(), 0);
    assert_eq!(d.classify(0, 0), Err(GraphError::InvalidNodeIndex));
}

#[test]
fn a_pair_out_of_range_is_an_error() {
    let d = distances(2, &[(0, 1, 5)]);
    assert_eq!(d.classify(2, 0), Err(GraphError::InvalidNodeIndex));
    assert_eq!(d.classify(0, 2), Err(GraphError::InvalidNodeIndex));
    assert_eq!(d.cell(2, 0), Err(GraphError::InvalidNodeIndex));
    assert_eq!(d.cell(0, 2), Err(GraphError::InvalidNodeIndex));
}

#[test]
fn a_batch_of_pairs_is_classified_in_order() {
    let d = distances(3, &[(0, 1, 5), (1, 2, -2), (2, 2, -1)]);
    assert_eq!(
        d.classify_all(&vec![(0, 1), (1, 0), (0, 2), (0, 0), (1, 1)]),
        Ok(vec![
            Classification::Distance(5),
            Classification::Impossible,
            Classification::NegativeInfinity,
            Classification::Distance(0),
            Classification::Distance(0),
        ])
    );
    assert_eq!(d.classify_all(&vec![]), Ok(vec![]));
    assert_eq!(
        d.classify_all(&vec![(0, 1), (3, 0), (1, 2)]),
        Err(GraphError::InvalidNodeIndex)
    );
}
