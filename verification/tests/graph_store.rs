use shortest_paths::graph::{Edge, Graph, GraphError, Neighbor};
use shortest_paths::matrix::{MatrixGraph, SignedEdge, INFINITE};

#[test]
fn edge_new_keeps_fields() {
    let e = Edge::new(1, 2, 3);
    assert_eq!(e.a, 1);
    assert_eq!(e.b, 2);
    assert_eq!(e.weight, 3);
}

#[test]
fn signed_edge_new_keeps_fields() {
    let e = SignedEdge::new(4, 5, -6);
    assert_eq!(e.a, 4);
    assert_eq!(e.b, 5);
    assert_eq!(e.weight, -6);
}

#[test]
fn build_groups_edges_by_source_in_insertion_order() {
    let edges = vec![
        Edge::new(1, 2, 7),
        Edge::new(0, 1, 4),
        Edge::new(1, 0, 9),
        Edge::new(1, 2, 3),
    ];
    let g = Graph::build(3, &edges).unwrap();
    assert_eq!(g.num_nodes(), 3);
    assert_eq!(g.neighbors(0), Ok(&vec![Neighbor { node: 1, weight: 4 }]));
    assert_eq!(
        g.neighbors(1),
        Ok(&vec![
            Neighbor { node: 2, weight: 7 },
            Neighbor { node: 0, weight: 9 },
            Neighbor { node: 2, weight: 3 },
        ])
    );
    assert_eq!(g.neighbors(3), Err(GraphError::InvalidNodeIndex));
    assert!(g.neighbors(2).unwrap().is_empty());
}

#[test]
fn build_rejects_an_endpoint_out_of_range() {
    assert_eq!(
        Graph::build(2, &vec![Edge::new(0, 2, 1)]).err(),
        Some(GraphError::InvalidNodeIndex)
    );
    assert_eq!(
        Graph::build(2, &vec![Edge::new(2, 0, 1)]).err(),
        Some(GraphError::InvalidNodeIndex)
    );
    assert_eq!(
        Graph::build(0, &vec![Edge::new(0, 0, 1)]).err(),
        Some(GraphError::InvalidNodeIndex)
    );
}

#[test]
fn build_accepts_a_graph_without_nodes() {
    let g = Graph::build(0, &vec![]).unwrap();
    assert_eq!(g.num_nodes(), 0);
}

#[test]
fn new_takes_ready_made_lists() {
    let lists = vec![
        vec![Neighbor { node: 1, weight: 4 }],
        vec![Neighbor { node: 0, weight: 5 }, Neighbor { node: 1, weight: 6 }],
    ];
    let g = Graph::new(2, lists.clone()).unwrap();
    assert_eq!(g.num_nodes(), 2);
    assert_eq!(g.neighbors(0), Ok(&lists[0]));
    assert_eq!(g.neighbors(1), Ok(&lists[1]));
}

#[test]
fn new_rejects_a_neighbour_out_of_range() {
    let lists = vec![vec![Neighbor { node: 2, weight: 4 }], vec![]];
    assert_eq!(Graph::new(2, lists).err(), Some(GraphError::InvalidNodeIndex));
}

#[test]
fn new_rejects_a_wrong_number_of_lists() {
    assert_eq!(Graph::new(2, vec![vec![]]).err(), Some(GraphError::NodeCountMismatch));
    assert_eq!(
        Graph::new(1, vec![vec![], vec![]]).err(),
        Some(GraphError::NodeCountMismatch)
    );
}

#[test]
fn matrix_starts_with_zero_diagonal_and_no_edges() {
    let g = MatrixGraph::build(3, &vec![]).unwrap();
    assert_eq!(g.num_nodes(), 3);
    for u in 0..3u16 {
        for v in 0..3u16 {
            let expected = if u == v { Some(0) } else { None };
            assert_eq!(g.weight(u, v), Ok(expected));
        }
    }
}

#[test]
fn duplicate_edges_collapse_to_the_lightest() {
    let edges = vec![SignedEdge::new(0, 1, 10), SignedEdge::new(0, 1, 3)];
    let g = MatrixGraph::build(2, &edges).unwrap();
    assert_eq!(g.weight(0, 1), Ok(Some(3)));
    assert_eq!(g.weight(1, 0), Ok(None));

    let edges = vec![
        SignedEdge::new(0, 1, 3),
        SignedEdge::new(0, 1, 10),
        SignedEdge::new(0, 1, -2),
        SignedEdge::new(0, 1, 5),
    ];
    let g = MatrixGraph::build(2, &edges).unwrap();
    assert_eq!(g.weight(0, 1), Ok(Some(-2)));
}

#[test]
fn self_loops_lower_the_diagonal_only_when_negative() {
    let edges = vec![SignedEdge::new(0, 0, 5), SignedEdge::new(1, 1, -5)];
    let g = MatrixGraph::build(2, &edges).unwrap();
    assert_eq!(g.weight(0, 0), Ok(Some(0)));
    assert_eq!(g.weight(1, 1), Ok(Some(-5)));
}

#[test]
fn matrix_rejects_an_endpoint_out_of_range() {
    assert_eq!(
        MatrixGraph::build(2, &vec![SignedEdge::new(0, 2, 1)]).err(),
        Some(GraphError::InvalidNodeIndex)
    );
    assert_eq!(
        MatrixGraph::build(2, &vec![SignedEdge::new(5, 0, 1)]).err(),
        Some(GraphError::InvalidNodeIndex)
    );
    let g = MatrixGraph::build(2, &vec![]).unwrap();
    assert_eq!(g.weight(2, 0), Err(GraphError::InvalidNodeIndex));
    assert_eq!(g.weight(0, 2), Err(GraphError::InvalidNodeIndex));
}

#[test]
fn the_sentinel_is_half_of_the_largest_distance() {
    assert_eq!(INFINITE, i64::MAX / 2);
    assert!(INFINITE.checked_add(INFINITE).is_some());
}

#[test]
fn errors_say_what_went_wrong() {
    assert_eq!(GraphError::InvalidNodeIndex.message(), "invalid node index");
    assert_eq!(
        GraphError::NodeCountMismatch.message(),
        "adjacency list does not match the node count"
    );
}
