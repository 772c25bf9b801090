use fusion_blossom::complete_graph::{CompleteGraph, PrebuiltCompleteGraph};
use fusion_blossom::util::SolverInitializer;
use std::collections::BTreeMap;

/// a square 0 - 1 - 2 - 3 - 0 with one heavy side and a diagonal
fn square_edges() -> Vec<(usize, usize, i64)> {
    vec![(0, 1, 10), (1, 2, 10), (2, 3, 10), (3, 0, 100), (0, 2, 30)]
}

#[test]
fn complete_graph_shortest_path() {
    let edges = square_edges();
    let mut complete_graph = CompleteGraph::new(4, &edges);
    let (path, weight) = complete_graph.get_path(0, 3);
    assert_eq!(weight, 30);
    assert_eq!(path, vec![(1, 10), (2, 10), (3, 10)]);
    let (path, weight) = complete_graph.get_path(3, 1);
    assert_eq!(weight, 20);
    assert_eq!(path.last().unwrap().0, 1);
    let all = complete_graph.all_edges(0);
    assert_eq!(all.get(&2), Some(&(1, 20)));
    assert_eq!(all.get(&3), Some(&(2, 30)));
}

#[test]
fn complete_graph_erasures_then_reset() {
    let edges = square_edges();
    let mut complete_graph = CompleteGraph::new(4, &edges);
    complete_graph.load_erasures(&vec![3]);
    let (_, weight) = complete_graph.get_path(0, 3);
    assert_eq!(weight, 0);
    complete_graph.reset();
    assert_eq!(complete_graph.weighted_edges, edges);
    let (_, weight) = complete_graph.get_path(0, 3);
    assert_eq!(weight, 30);
    complete_graph.load_dynamic_weights(&vec![(4, 2)]);
    let (path, weight) = complete_graph.get_path(0, 3);
    assert_eq!(weight, 12);
    assert_eq!(path, vec![(2, 2), (3, 10)]);
    complete_graph.reset();
    assert_eq!(complete_graph.weighted_edges, edges);
}

#[test]
fn prebuilt_complete_graph_weights() {
    // a line 0 - 1 - 2 - 3 with virtual ends
    let initializer = SolverInitializer::new(4, vec![(0, 1, 10), (1, 2, 30), (2, 3, 10)], vec![0, 3]);
    let prebuilt = PrebuiltCompleteGraph::new(&initializer);
    assert_eq!(prebuilt.get_boundary_weight(1), Some((0, 10)));
    assert_eq!(prebuilt.get_boundary_weight(2), Some((3, 10)));
    assert_eq!(prebuilt.get_boundary_weight(0), None);
    // matching 1 and 2 costs more than sending both to the boundary, so that edge is dropped
    assert_eq!(prebuilt.get_edge_weight(1, 2), None);
    let initializer = SolverInitializer::new(4, vec![(0, 1, 10), (1, 2, 4), (2, 3, 10)], vec![0, 3]);
    let prebuilt = PrebuiltCompleteGraph::new(&initializer);
    assert_eq!(prebuilt.get_edge_weight(1, 2), Some(4));
    assert_eq!(prebuilt.get_edge_weight(2, 1), Some(4));
}

#[test]
fn complete_graph_lowers_queued_distance() {
    // vertex 2 is first queued over the direct edge, then reached more cheaply through vertex 1
    let mut complete_graph = CompleteGraph::new(3, &vec![(0, 1, 2), (1, 2, 4), (0, 2, 10)]);
    let all = complete_graph.all_edges(0);
    let mut expected = BTreeMap::new();
    expected.insert(1, (0, 2));
    expected.insert(2, (1, 6));
    assert_eq!(all, expected);
    assert_eq!(complete_graph.get_path(0, 2), (vec![(1, 2), (2, 4)], 6));
}

#[test]
fn complete_graph_reset_restores_adjacency() {
    let edges = square_edges();
    let mut complete_graph = CompleteGraph::new(4, &edges);
    let before: Vec<BTreeMap<usize, i64>> = complete_graph.vertices.iter().map(|v| v.edges.clone()).collect();
    complete_graph.load_dynamic_weights(&vec![(0, 4), (4, 2)]);
    assert_eq!(complete_graph.vertices[0].edges.get(&1), Some(&4));
    assert_eq!(complete_graph.vertices[1].edges.get(&0), Some(&4));
    assert_eq!(complete_graph.vertices[2].edges.get(&0), Some(&2));
    complete_graph.reset();
    let after: Vec<BTreeMap<usize, i64>> = complete_graph.vertices.iter().map(|v| v.edges.clone()).collect();
    assert_eq!(after, before);
    complete_graph.load_erasures(&vec![1]);
    assert_eq!(complete_graph.vertices[2].edges.get(&1), Some(&0));
    complete_graph.reset();
    let after: Vec<BTreeMap<usize, i64>> = complete_graph.vertices.iter().map(|v| v.edges.clone()).collect();
    assert_eq!(after, before);
}

#[test]
fn prebuilt_boundary_prefers_lower_virtual_vertex() {
    // vertex 1 is at distance 5 from both virtual vertices 0 and 2
    let initializer = SolverInitializer::new(3, vec![(0, 1, 5), (1, 2, 5)], vec![0, 2]);
    let prebuilt = PrebuiltCompleteGraph::new(&initializer);
    assert_eq!(prebuilt.get_boundary_weight(1), Some((0, 5)));
}

#[test]
fn complete_graph_terminates_at_target() {
    let edges = square_edges();
    let mut complete_graph = CompleteGraph::new(4, &edges);
    let found = complete_graph.all_edges_with_terminate(0, 1);
    let mut expected = BTreeMap::new();
    expected.insert(1, (0, 10));
    assert_eq!(found, expected);
    let found = complete_graph.all_edges_with_terminate(0, 2);
    assert_eq!(found.get(&2), Some(&(1, 20)));
    assert!(found.values().all(|(_, w)| *w <= 20));
    assert_eq!(found.get(&3), None);
}
