use fusion_blossom::dual_module::{
    DualModuleInterface, DualNodeGrowState, DualNodePtr, GroupMaxUpdateLength, MaxUpdateLength, SyncRequest,
};
use fusion_blossom::dual_module_serial::DualModuleSerial;
use fusion_blossom::util::{IndexRange, PartitionedSolverInitializer, SolverInitializer, SyndromePattern};
use std::collections::BTreeMap;

/// a line of four vertices, both ends virtual, every edge of weight 100
fn line_graph() -> SolverInitializer {
    SolverInitializer::new(4, vec![(0, 1, 100), (1, 2, 100), (2, 3, 100)], vec![0, 3])
}

#[test]
fn two_defects_meet_in_the_middle() {
    let initializer = line_graph();
    let mut dual_module = DualModuleSerial::new_empty(&initializer);
    let mut interface = DualModuleInterface::new_load(&SyndromePattern::new_vertices(vec![1, 2]), &mut dual_module);
    assert_eq!(interface.nodes_count(), 2);
    let a = interface.get_node(0).unwrap();
    let b = interface.get_node(1).unwrap();
    let group = dual_module.compute_maximum_update_length(&interface);
    assert_eq!(group.get_none_zero_growth(), Some(50));
    interface.grow(50, &mut dual_module).unwrap();
    assert_eq!(interface.sum_dual_variables(), 100);
    let group = dual_module.compute_maximum_update_length(&interface);
    assert_eq!(group.get_none_zero_growth(), None);
    assert!(group.peek().unwrap().is_conflicting(&a, &b));
    assert!(interface.sanity_check().is_ok());
    assert!(dual_module.sanity_check(&interface).is_ok());
}

#[test]
fn single_defect_touches_the_boundary() {
    let initializer = line_graph();
    let mut dual_module = DualModuleSerial::new_empty(&initializer);
    let mut interface = DualModuleInterface::new_load(&SyndromePattern::new_vertices(vec![1]), &mut dual_module);
    let a = interface.get_node(0).unwrap();
    let group = dual_module.compute_maximum_update_length(&interface);
    assert_eq!(group.get_none_zero_growth(), Some(100));
    interface.grow(100, &mut dual_module).unwrap();
    let group = dual_module.compute_maximum_update_length(&interface);
    assert_eq!(group.peek().unwrap().get_touching_virtual(), Some((a, 0)));
    // a node that stays does not grow: nothing to report
    interface.set_grow_state(&a, DualNodeGrowState::Stay, &mut dual_module);
    let group = dual_module.compute_maximum_update_length(&interface);
    assert!(group.is_empty());
}

#[test]
fn growing_moves_the_dual_variables_by_speed() {
    let initializer = line_graph();
    let mut dual_module = DualModuleSerial::new_empty(&initializer);
    let mut interface = DualModuleInterface::new_load(&SyndromePattern::new_vertices(vec![1, 2]), &mut dual_module);
    let b = interface.get_node(1).unwrap();
    interface.grow(30, &mut dual_module).unwrap();
    interface.set_grow_state(&b, DualNodeGrowState::Shrink, &mut dual_module);
    interface.grow(10, &mut dual_module).unwrap();
    // node 0 grew by 40 while node 1 grew by 30 then shrank by 10
    assert_eq!(interface.sum_dual_variables(), 40 + 20);
    assert_eq!(dual_module.nodes[0].as_ref().unwrap().dual_variable, 40);
    assert_eq!(dual_module.nodes[1].as_ref().unwrap().dual_variable, 20);
}

#[test]
fn loading_erasures_and_clearing_restores_weights() {
    let initializer = line_graph();
    let mut dual_module = DualModuleSerial::new_empty(&initializer);
    let syndrome = SyndromePattern::new(vec![1], vec![1]);
    let _interface = DualModuleInterface::new_load(&syndrome, &mut dual_module);
    assert_eq!(dual_module.edges[1].weight, 0);
    assert_eq!(dual_module.edges[0].weight, 100);
    dual_module.clear();
    assert_eq!(dual_module.edges[1].weight, 100);
    dual_module.load_dynamic_weights(&vec![(2, 40), (0, 60)]);
    assert_eq!(dual_module.edges[2].weight, 40);
    assert_eq!(dual_module.edges[0].weight, 60);
    dual_module.clear();
    assert_eq!(dual_module.edges[0].weight, 100);
    assert_eq!(dual_module.edges[2].weight, 100);
}

#[test]
fn group_max_update_length_peek_and_pop() {
    let initializer = line_graph();
    let mut dual_module = DualModuleSerial::new_empty(&initializer);
    let interface = DualModuleInterface::new_load(&SyndromePattern::new_vertices(vec![1, 2]), &mut dual_module);
    let a = interface.get_node(0).unwrap();
    let b = interface.get_node(1).unwrap();
    let mut group = GroupMaxUpdateLength::new();
    assert!(group.is_empty());
    group.add(MaxUpdateLength::NonZeroGrow((70, false)), &interface);
    group.add(MaxUpdateLength::NonZeroGrow((30, false)), &interface);
    assert_eq!(group.get_none_zero_growth(), Some(30));
    group.add(MaxUpdateLength::Conflicting((a, a), (b, b)), &interface);
    group.add(MaxUpdateLength::BlossomNeedExpand(b), &interface);
    assert_eq!(group.get_none_zero_growth(), None);
    assert_eq!(group.peek(), Some(MaxUpdateLength::BlossomNeedExpand(b)));
    assert_eq!(group.pop(), Some(MaxUpdateLength::BlossomNeedExpand(b)));
    assert_eq!(group.peek(), Some(MaxUpdateLength::Conflicting((a, a), (b, b))));
    assert_eq!(group.pop(), Some(MaxUpdateLength::Conflicting((a, a), (b, b))));
    assert_eq!(group.pop(), None);
}

#[test]
fn blossom_around_three_defects_and_back() {
    // a triangle of defects, each pair at distance 100
    let initializer = SolverInitializer::new(3, vec![(0, 1, 100), (1, 2, 100), (0, 2, 100)], vec![]);
    let mut dual_module = DualModuleSerial::new_empty(&initializer);
    let mut interface = DualModuleInterface::new_load(&SyndromePattern::new_vertices(vec![0, 1, 2]), &mut dual_module);
    let nodes: Vec<DualNodePtr> = (0..3).map(|i| interface.get_node(i).unwrap()).collect();
    interface.grow(50, &mut dual_module).unwrap();
    assert_eq!(interface.sum_dual_variables(), 150);
    let blossom = interface.create_blossom(nodes.clone(), vec![], &mut dual_module);
    assert_eq!(interface.nodes_count(), 4);
    for node in nodes.iter() {
        assert_eq!(node.get_ancestor_blossom(&interface), blossom);
    }
    let mut vertices = blossom.get_all_vertices(&interface);
    vertices.sort();
    assert_eq!(vertices, vec![0, 1, 2]);
    assert!(interface.sanity_check().is_ok());
    interface.grow(20, &mut dual_module).unwrap();
    assert_eq!(interface.sum_dual_variables(), 170);
    interface.set_grow_state(&blossom, DualNodeGrowState::Shrink, &mut dual_module);
    interface.grow(20, &mut dual_module).unwrap();
    let group = dual_module.compute_maximum_update_length(&interface);
    assert_eq!(group.peek(), Some(MaxUpdateLength::BlossomNeedExpand(blossom)));
    interface.expand_blossom(blossom, &mut dual_module);
    for node in nodes.iter() {
        assert_eq!(node.get_ancestor_blossom(&interface), *node);
    }
    assert_eq!(interface.sum_dual_variables(), 150);
}

#[test]
fn fuse_two_interfaces() {
    let initializer = line_graph();
    let mut left_module = DualModuleSerial::new_empty(&initializer);
    let mut right_module = DualModuleSerial::new_empty(&initializer);
    let mut left = DualModuleInterface::new_load(&SyndromePattern::new_vertices(vec![1]), &mut left_module);
    let mut right = DualModuleInterface::new_load(&SyndromePattern::new_vertices(vec![2, 1]), &mut right_module);
    left.grow(10, &mut left_module).unwrap();
    right.grow(20, &mut right_module).unwrap();
    let mut parent = DualModuleInterface::new_empty();
    parent.fuse(&mut left, &mut right);
    assert!(parent.is_fusion && left.is_fusion && right.is_fusion);
    assert_eq!(left.index_bias, 0);
    assert_eq!(right.index_bias, 1);
    assert_eq!(parent.nodes_count(), 3);
    assert_eq!(parent.sum_dual_variables(), 10 + 20 + 20);
    // the handles of the right interface are shifted by the size of the left one
    assert_eq!(parent.get_node(2), Some(DualNodePtr { index: 2 }));
}

/// a unit owning vertices 0..3 of a line 0 - 1 - 2 - 3 - 4 that mirrors vertex 3 of unit 1
fn line_unit() -> PartitionedSolverInitializer {
    PartitionedSolverInitializer {
        unit_index: 0,
        vertex_num: 5,
        edge_num: 4,
        owning_range: IndexRange::new(0, 3),
        owning_interface: None,
        interfaces: vec![((1, true), vec![(3, false)])],
        weighted_edges: vec![(0, 1, 100, 0), (1, 2, 100, 1), (3, 2, 100, 2)],
        virtual_vertices: vec![0],
    }
}

#[test]
fn partitioned_unit_layout() {
    let dual_module = DualModuleSerial::new_partitioned(&line_unit());
    assert_eq!(dual_module.vertices.len(), 4);
    assert!(dual_module.vertices[0].is_virtual);
    assert!(!dual_module.vertices[1].is_virtual);
    assert_eq!(dual_module.vertices[3].vertex_index, 3);
    assert_eq!(dual_module.vertices[3].mirror_unit, Some((1, true)));
    assert_eq!(dual_module.get_vertex_index(3), Some(3));
    assert_eq!(dual_module.get_vertex_index(2), Some(2));
    assert_eq!(dual_module.get_vertex_index(4), None);
    // the edge is stored from its lower vertex
    assert_eq!((dual_module.edges[2].left, dual_module.edges[2].right), (2, 3));
    assert_eq!(dual_module.edges[2].edge_index, 2);
    assert_eq!(dual_module.vertices[2].edges, vec![1, 2]);
    let info = dual_module.unit_module_info.as_ref().unwrap();
    let mut expected = BTreeMap::new();
    expected.insert(3, 3);
    assert_eq!(info.mirrored_vertices, expected);
}

#[test]
fn sync_event_propagates_into_a_mirrored_vertex() {
    let mut dual_module = DualModuleSerial::new_partitioned(&line_unit());
    let remote = DualNodePtr { index: 7 };
    let sync_event = SyncRequest {
        mirror_unit_index: 1,
        vertex_index: 3,
        propagated_dual_node: Some((remote, 20, 3)),
        propagated_grandson_dual_node: Some((remote, 20, 3)),
    };
    dual_module.execute_sync_event(&sync_event);
    assert_eq!(dual_module.get_dual_node_index(&remote), Some(0));
    assert_eq!(dual_module.vertices[3].propagated_dual_node, Some(0));
    assert_eq!(dual_module.vertices[3].propagated_grandson_dual_node, Some(0));
    // the edge to vertex 2 is now on the boundary of the node, from the side of vertex 3
    assert_eq!(dual_module.edges[2].right_dual_node, Some(0));
    assert_eq!(dual_module.nodes[0].as_ref().unwrap().boundary, vec![(false, 2)]);
    assert_eq!(dual_module.nodes[0].as_ref().unwrap().dual_variable, 20);
    // the node leaves the vertex again
    let vacate = SyncRequest {
        mirror_unit_index: 1,
        vertex_index: 3,
        propagated_dual_node: None,
        propagated_grandson_dual_node: None,
    };
    dual_module.execute_sync_event(&vacate);
    assert_eq!(dual_module.vertices[3].propagated_dual_node, None);
    assert_eq!(dual_module.edges[2].right_dual_node, None);
    assert!(dual_module.nodes[0].as_ref().unwrap().boundary.is_empty());
    // the owned range of dual nodes moves with the bias
    dual_module.bias_dual_node_index(3);
    let info = dual_module.unit_module_info.as_ref().unwrap();
    assert_eq!(info.owning_dual_range, IndexRange::new(10, 11));
}

#[test]
fn blossom_representative_is_first_vertex() {
    let initializer = SolverInitializer::new(3, vec![(0, 1, 100), (1, 2, 100), (0, 2, 100)], vec![]);
    let mut dual_module = DualModuleSerial::new_empty(&initializer);
    let mut interface = DualModuleInterface::new_load(&SyndromePattern::new_vertices(vec![2, 0, 1]), &mut dual_module);
    let nodes: Vec<DualNodePtr> = (0..3).map(|i| interface.get_node(i).unwrap()).collect();
    interface.grow(50, &mut dual_module).unwrap();
    let blossom = interface.create_blossom(vec![nodes[1], nodes[2], nodes[0]], vec![], &mut dual_module);
    let vertices = blossom.get_all_vertices(&interface);
    assert_eq!(vertices, vec![0, 1, 2]);
    assert_eq!(vertices[0], blossom.get_representative_vertex(&interface));
}

#[test]
fn blossom_boundary_joins_children_boundaries() {
    let initializer = SolverInitializer::new(3, vec![(0, 1, 100), (1, 2, 100), (0, 2, 100)], vec![]);
    let mut dual_module = DualModuleSerial::new_empty(&initializer);
    let mut interface = DualModuleInterface::new_load(&SyndromePattern::new_vertices(vec![0, 1, 2]), &mut dual_module);
    let nodes: Vec<DualNodePtr> = (0..3).map(|i| interface.get_node(i).unwrap()).collect();
    interface.grow(50, &mut dual_module).unwrap();
    let blossom = interface.create_blossom(nodes.clone(), vec![], &mut dual_module);
    let k = dual_module.get_dual_node_internal_ptr_optional(&blossom).unwrap();
    let boundary: Vec<(bool, usize)> = (0..dual_module.boundary_len(k)).map(|j| dual_module.boundary_entry(k, j)).collect();
    assert_eq!(boundary, vec![(true, 0), (true, 2), (false, 0), (true, 1), (false, 1), (false, 2)]);
}
