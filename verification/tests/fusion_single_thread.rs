use fusion_blossom::fusion_single_thread::{FusionSingleThread, FusionUnionNode, UnionFind};

fn chain() -> FusionSingleThread {
    FusionSingleThread::new(4, &vec![(0, 1, 2), (2, 1, 4), (2, 3, 6)], &vec![3])
}

#[test]
fn single_thread_new_builds_graph() {
    let solver = chain();
    assert_eq!(solver.nodes.len(), 4);
    assert_eq!(solver.edges.len(), 3);
    assert_eq!(solver.nodes[1].edges, vec![0, 1]);
    assert_eq!(solver.nodes[2].edges, vec![1, 2]);
    assert!(solver.nodes[3].is_virtual);
    assert!(!solver.nodes[2].is_virtual);
    assert_eq!((solver.edges[1].left, solver.edges[1].right, solver.edges[1].weight), (1, 2, 4));
    assert!(solver.tree_nodes.is_empty());
}

#[test]
fn single_thread_load_syndrome_makes_tree_nodes() {
    let mut solver = chain();
    solver.load_syndrome(&vec![1, 2, 1]);
    assert!(solver.nodes[1].is_syndrome && solver.nodes[2].is_syndrome);
    assert!(!solver.nodes[0].is_syndrome);
    assert_eq!(solver.tree_nodes.len(), 2);
    assert_eq!(solver.nodes[1].tree_node, Some(0));
    assert_eq!(solver.nodes[2].propagated_tree_node, Some(1));
    assert_eq!(solver.tree_nodes[0].syndrome_node, Some(1));
    assert_eq!(solver.tree_nodes[0].boundary, vec![(false, 0), (true, 1)]);
    assert_eq!(solver.tree_nodes[1].boundary, vec![(false, 1), (true, 2)]);
    assert_eq!(solver.tree_nodes[1].dual_variable, 0);
    assert_eq!(solver.tree_nodes[1].tree_node_index, 1);
    assert!(solver.is_tree_node_union_find_root(1));
    assert!(!solver.is_tree_node_union_find_root_same(0, 1));
    assert!(solver.is_tree_node_union_find_root_same(1, 1));
    // loading again forgets the previous tree nodes
    solver.load_syndrome(&vec![0]);
    assert_eq!(solver.tree_nodes.len(), 1);
    assert_eq!(solver.nodes[1].tree_node, None);
    assert!(!solver.nodes[1].is_syndrome);
    assert_eq!(solver.tree_nodes[0].boundary, vec![(true, 0)]);
}

#[test]
fn single_thread_clear_growth_keeps_syndrome() {
    let mut solver = chain();
    solver.load_syndrome(&vec![2]);
    solver.clear_growth();
    assert!(solver.tree_nodes.is_empty());
    assert!(solver.nodes[2].is_syndrome);
    assert_eq!(solver.nodes[2].tree_node, None);
    assert_eq!(solver.nodes[2].propagated_tree_node, None);
}

#[test]
fn union_payload_prefers_larger_cluster() {
    let (left_is_root, merged) = FusionUnionNode::union(&FusionUnionNode { set_size: 3 }, &FusionUnionNode { set_size: 5 });
    assert!(!left_is_root);
    assert_eq!(merged.set_size, 8);
    let mut node = merged;
    node.clear();
    assert_eq!(node, FusionUnionNode::default());
    let clusters = UnionFind::new(3);
    assert_eq!(clusters.find(2), 2);
}

#[test]
fn single_thread_grow_tree_node_grows_boundary() {
    let mut solver = chain();
    solver.load_syndrome(&vec![1]);
    solver.grow_tree_node(0, 1);
    assert_eq!((solver.edges[0].left_growth, solver.edges[0].right_growth), (0, 1));
    assert_eq!((solver.edges[1].left_growth, solver.edges[1].right_growth), (1, 0));
    assert_eq!((solver.edges[2].left_growth, solver.edges[2].right_growth), (0, 0));
}
