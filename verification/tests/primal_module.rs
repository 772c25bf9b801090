use fusion_blossom::dual_module::{DualModuleInterface, DualNodePtr};
use fusion_blossom::dual_module_serial::DualModuleSerial;
use fusion_blossom::primal_module::{IntermediateMatching, PerfectMatching, SubGraphBuilder};
use fusion_blossom::util::{SolverInitializer, SyndromePattern};

/// a line 0 - 1 - 2 - 3 - 4 - 5 with virtual ends, every edge of weight 100
fn line_graph() -> SolverInitializer {
    SolverInitializer::new(6, vec![(0, 1, 100), (1, 2, 100), (2, 3, 100), (3, 4, 100), (4, 5, 100)], vec![0, 5])
}

fn loaded(defects: Vec<usize>) -> (DualModuleInterface, DualModuleSerial) {
    let initializer = line_graph();
    let mut dual_module = DualModuleSerial::new_empty(&initializer);
    let interface = DualModuleInterface::new_load(&SyndromePattern::new_vertices(defects), &mut dual_module);
    (interface, dual_module)
}

#[test]
fn legacy_mwpm_result_from_a_perfect_matching() {
    let (interface, _) = loaded(vec![1, 2, 4]);
    let mut perfect_matching = PerfectMatching::new();
    perfect_matching.peer_matchings.push((DualNodePtr { index: 0 }, DualNodePtr { index: 1 }));
    perfect_matching.virtual_matchings.push((DualNodePtr { index: 2 }, 5));
    let result = perfect_matching.legacy_get_mwpm_result(&interface, vec![1, 2, 4]);
    assert_eq!(result, vec![2, 1, 5]);
}

#[test]
fn intermediate_matching_append_and_expand() {
    let (interface, _) = loaded(vec![1, 2, 4]);
    let a = DualNodePtr { index: 0 };
    let b = DualNodePtr { index: 1 };
    let c = DualNodePtr { index: 2 };
    let mut first = IntermediateMatching::new();
    first.peer_matchings.push(((a, a), (b, b)));
    let mut second = IntermediateMatching::new();
    second.virtual_matchings.push(((c, c), 5));
    first.append(&mut second);
    assert!(second.peer_matchings.is_empty() && second.virtual_matchings.is_empty());
    let perfect_matching = first.get_perfect_matching(&interface);
    assert_eq!(perfect_matching.peer_matchings, vec![(a, b)]);
    assert_eq!(perfect_matching.virtual_matchings, vec![(c, 5)]);
}

#[test]
fn expand_a_blossom_into_pairs() {
    // a triangle of defects gathered into a blossom, the blossom touching the boundary through node 0
    let initializer = SolverInitializer::new(4, vec![(0, 1, 100), (1, 2, 100), (0, 2, 100), (0, 3, 100)], vec![3]);
    let mut dual_module = DualModuleSerial::new_empty(&initializer);
    let mut interface = DualModuleInterface::new_load(&SyndromePattern::new_vertices(vec![0, 1, 2]), &mut dual_module);
    let nodes: Vec<DualNodePtr> = (0..3).map(|i| interface.get_node(i).unwrap()).collect();
    interface.grow(50, &mut dual_module).unwrap();
    let blossom = interface.create_blossom(nodes.clone(), vec![], &mut dual_module);
    let pairs = IntermediateMatching::expand_blossom(&interface, &blossom, &nodes[0]);
    assert_eq!(pairs, vec![(nodes[1], nodes[2])]);
    let mut intermediate = IntermediateMatching::new();
    intermediate.virtual_matchings.push(((blossom, nodes[0]), 3));
    let perfect_matching = intermediate.get_perfect_matching(&interface);
    assert_eq!(perfect_matching.peer_matchings, vec![(nodes[1], nodes[2])]);
    assert_eq!(perfect_matching.virtual_matchings, vec![(nodes[0], 3)]);
    let result = perfect_matching.legacy_get_mwpm_result(&interface, vec![0, 1, 2]);
    assert_eq!(result, vec![3, 2, 1]);
}

#[test]
fn subgraph_of_matchings() {
    let initializer = line_graph();
    let mut builder = SubGraphBuilder::new(&initializer);
    builder.add_matching(1, 3);
    assert_eq!(builder.get_subgraph(), vec![1, 2]);
    assert_eq!(builder.total_weight(), 200);
    // adding the same pair twice cancels out
    builder.add_matching(1, 3);
    assert!(builder.get_subgraph().is_empty());
    assert_eq!(builder.total_weight(), 0);
    // overlapping paths cancel on their common edges
    builder.add_matching(1, 3);
    builder.add_matching(2, 4);
    assert_eq!(builder.get_subgraph(), vec![1, 3]);
    builder.load_subgraph(&vec![4, 0, 4]);
    assert_eq!(builder.get_subgraph(), vec![0, 4]);
    builder.clear();
    assert!(builder.get_subgraph().is_empty());
}

#[test]
fn subgraph_with_erasures() {
    let initializer = line_graph();
    let mut builder = SubGraphBuilder::new(&initializer);
    builder.load_erasures(&vec![2]);
    builder.add_matching(1, 4);
    assert_eq!(builder.get_subgraph(), vec![1, 2, 3]);
    // the erased edge weighs nothing
    assert_eq!(builder.total_weight(), 200);
    builder.clear();
    builder.add_matching(1, 4);
    assert_eq!(builder.total_weight(), 300);
}

#[test]
fn subgraph_of_a_perfect_matching() {
    let (interface, _) = loaded(vec![1, 2, 4]);
    let mut perfect_matching = PerfectMatching::new();
    perfect_matching.peer_matchings.push((DualNodePtr { index: 0 }, DualNodePtr { index: 1 }));
    perfect_matching.virtual_matchings.push((DualNodePtr { index: 2 }, 5));
    let mut builder = SubGraphBuilder::new(&line_graph());
    builder.load_perfect_matching(&interface, &perfect_matching);
    assert_eq!(builder.get_subgraph(), vec![1, 4]);
    assert_eq!(builder.total_weight(), 200);
}
