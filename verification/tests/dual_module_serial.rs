use fusion_blossom::dual_module::{DualModuleInterface, DualNodeGrowState, DualNodePtr, MaxUpdateLength};
use fusion_blossom::dual_module_serial::DualModuleSerial;
use fusion_blossom::util::{SolverInitializer, SyndromePattern, VertexIndex, Weight};
use fusion_blossom::{blossom_v_mwpm, detailed_matching};

/// the decoding graph of a planar code under code-capacity noise with uniform error rate:
/// `d` rows of `d - 1` real vertices, with a virtual vertex at each end of every row
fn code_capacity_planar_code(d: usize, half_weight: Weight) -> SolverInitializer {
    let row_vertex_num = (d - 1) + 2;
    let vertex_num = row_vertex_num * d;
    let mut weighted_edges = Vec::new();
    for row in 0..d {
        let bias = row * row_vertex_num;
        for i in 0..d - 1 {
            weighted_edges.push((bias + i, bias + i + 1, half_weight * 2));
        }
        weighted_edges.push((bias, bias + d, half_weight * 2));
        if row + 1 < d {
            for i in 0..d - 1 {
                weighted_edges.push((bias + i, bias + i + row_vertex_num, half_weight * 2));
            }
        }
    }
    let mut virtual_vertices = Vec::new();
    for row in 0..d {
        let bias = row * row_vertex_num;
        virtual_vertices.push(bias + d - 1);
        virtual_vertices.push(bias + d);
    }
    SolverInitializer::new(vertex_num, weighted_edges, virtual_vertices)
}

/// decode the defects and check the weight of the minimum-weight perfect matching
fn standard_syndrome(d: usize, defect_vertices: Vec<VertexIndex>, final_dual: Weight) {
    let half_weight: Weight = 500;
    let initializer = code_capacity_planar_code(d, half_weight);
    let mwpm_result = blossom_v_mwpm(&initializer, &defect_vertices);
    assert_eq!(mwpm_result.len(), defect_vertices.len());
    let details = detailed_matching(&initializer, &defect_vertices, &mwpm_result);
    let total_weight: Weight = details.iter().map(|detail| detail.weight).sum();
    assert_eq!(total_weight, final_dual * 2 * half_weight, "unexpected final dual variable sum");
}

#[test]
fn dual_module_debug_1() {
    // cargo test dual_module_debug_1 -- --nocapture
    let defect_vertices = vec![
        6, 7, 17, 18, 21, 27, 28, 42, 43, 49, 51, 52, 54, 55, 61, 63, 65, 67, 76, 78, 80, 86, 103, 110, 113, 114, 116,
        122, 125, 127,
    ];
    standard_syndrome(11, defect_vertices, 23);
}

#[test]
fn dual_module_debug_2() {
    // cargo test dual_module_debug_2 -- --nocapture
    let defect_vertices = vec![
        5, 12, 16, 19, 21, 38, 42, 43, 49, 56, 61, 67, 72, 73, 74, 75, 76, 88, 89, 92, 93, 99, 105, 112, 117, 120, 124,
        129,
    ];
    standard_syndrome(11, defect_vertices, 22);
}

/// a syndrome of the given defect vertices
fn syndrome_of(defect_vertices: Vec<VertexIndex>) -> SyndromePattern {
    SyndromePattern::new_vertices(defect_vertices)
}

fn node(interface: &DualModuleInterface, index: usize) -> DualNodePtr {
    interface.get_node(index).unwrap()
}

#[test]
fn dual_module_serial_basics() {
    // cargo test dual_module_serial_basics -- --nocapture
    let half_weight = 500;
    let initializer = code_capacity_planar_code(7, half_weight);
    let mut dual_module = DualModuleSerial::new_empty(&initializer);
    let interface = DualModuleInterface::new_load(&syndrome_of(vec![19, 25]), &mut dual_module);
    // create dual nodes and grow them by half length
    let dual_node_19_ptr = node(&interface, 0);
    let dual_node_25_ptr = node(&interface, 1);
    for length in [half_weight, half_weight, half_weight, -half_weight, -half_weight, -half_weight] {
        dual_module.grow_dual_node(&interface, &dual_node_19_ptr, length).unwrap();
        dual_module.grow_dual_node(&interface, &dual_node_25_ptr, length).unwrap();
    }
}

#[test]
fn dual_module_serial_blossom_basics() {
    // cargo test dual_module_serial_blossom_basics -- --nocapture
    let half_weight = 500;
    let initializer = code_capacity_planar_code(7, half_weight);
    let mut dual_module = DualModuleSerial::new_empty(&initializer);
    let mut interface = DualModuleInterface::new_load(&syndrome_of(vec![19, 26, 35]), &mut dual_module);
    let dual_node_19_ptr = node(&interface, 0);
    let dual_node_26_ptr = node(&interface, 1);
    let dual_node_35_ptr = node(&interface, 2);
    interface.grow(2 * half_weight, &mut dual_module).unwrap();
    assert_eq!(interface.sum_dual_variables(), 6 * half_weight);
    let nodes_circle = vec![dual_node_19_ptr, dual_node_26_ptr, dual_node_35_ptr];
    interface.set_grow_state(&dual_node_26_ptr, DualNodeGrowState::Shrink, &mut dual_module);
    let dual_node_blossom = interface.create_blossom(nodes_circle, vec![], &mut dual_module);
    interface.grow(half_weight, &mut dual_module).unwrap();
    assert_eq!(interface.sum_dual_variables(), 7 * half_weight);
    interface.grow(half_weight, &mut dual_module).unwrap();
    assert_eq!(interface.sum_dual_variables(), 8 * half_weight);
    interface.grow(half_weight, &mut dual_module).unwrap();
    assert_eq!(interface.sum_dual_variables(), 9 * half_weight);
    interface.set_grow_state(&dual_node_blossom, DualNodeGrowState::Shrink, &mut dual_module);
    interface.grow(half_weight, &mut dual_module).unwrap();
    assert_eq!(interface.sum_dual_variables(), 8 * half_weight);
    interface.grow(2 * half_weight, &mut dual_module).unwrap();
    assert_eq!(interface.sum_dual_variables(), 6 * half_weight);
    interface.expand_blossom(dual_node_blossom, &mut dual_module);
    interface.set_grow_state(&dual_node_19_ptr, DualNodeGrowState::Shrink, &mut dual_module);
    interface.set_grow_state(&dual_node_26_ptr, DualNodeGrowState::Shrink, &mut dual_module);
    interface.set_grow_state(&dual_node_35_ptr, DualNodeGrowState::Shrink, &mut dual_module);
    interface.grow(half_weight, &mut dual_module).unwrap();
    assert_eq!(interface.sum_dual_variables(), 3 * half_weight);
}

#[test]
fn dual_module_serial_stop_reason_1() {
    // cargo test dual_module_serial_stop_reason_1 -- --nocapture
    let half_weight = 500;
    let initializer = code_capacity_planar_code(7, half_weight);
    let mut dual_module = DualModuleSerial::new_empty(&initializer);
    let mut interface = DualModuleInterface::new_load(&syndrome_of(vec![19, 25]), &mut dual_module);
    let dual_node_19_ptr = node(&interface, 0);
    let dual_node_25_ptr = node(&interface, 1);
    // grow the maximum
    let group_max_update_length = dual_module.compute_maximum_update_length(&interface);
    assert_eq!(
        group_max_update_length.get_none_zero_growth(),
        Some(2 * half_weight),
        "unexpected: {:?}",
        group_max_update_length
    );
    interface.grow(2 * half_weight, &mut dual_module).unwrap();
    assert_eq!(interface.sum_dual_variables(), 4 * half_weight);
    // grow the maximum
    let group_max_update_length = dual_module.compute_maximum_update_length(&interface);
    assert_eq!(
        group_max_update_length.get_none_zero_growth(),
        Some(half_weight),
        "unexpected: {:?}",
        group_max_update_length
    );
    interface.grow(half_weight, &mut dual_module).unwrap();
    assert_eq!(interface.sum_dual_variables(), 6 * half_weight);
    // cannot grow anymore, find out the reason
    let group_max_update_length = dual_module.compute_maximum_update_length(&interface);
    assert!(
        group_max_update_length
            .peek()
            .unwrap()
            .is_conflicting(&dual_node_19_ptr, &dual_node_25_ptr),
        "unexpected: {:?}",
        group_max_update_length
    );
}

/// the scenario of three defects on a column, first matched in pairs, then gathered in a blossom
/// that touches the boundary, shrunk again and expanded
fn three_defects_in_a_column(name: &str) {
    let half_weight = 500;
    let initializer = code_capacity_planar_code(7, half_weight);
    let mut dual_module = DualModuleSerial::new_empty(&initializer);
    let mut interface = DualModuleInterface::new_load(&syndrome_of(vec![18, 26, 34]), &mut dual_module);
    let dual_node_18_ptr = node(&interface, 0);
    let dual_node_26_ptr = node(&interface, 1);
    let dual_node_34_ptr = node(&interface, 2);
    // grow the maximum
    let group_max_update_length = dual_module.compute_maximum_update_length(&interface);
    assert_eq!(group_max_update_length.get_none_zero_growth(), Some(half_weight), "{name}: {:?}", group_max_update_length);
    interface.grow(half_weight, &mut dual_module).unwrap();
    assert_eq!(interface.sum_dual_variables(), 3 * half_weight);
    // cannot grow anymore, find out the reason
    let group_max_update_length = dual_module.compute_maximum_update_length(&interface);
    let reason = group_max_update_length.peek().unwrap();
    assert!(
        reason.is_conflicting(&dual_node_18_ptr, &dual_node_26_ptr) || reason.is_conflicting(&dual_node_26_ptr, &dual_node_34_ptr),
        "{name}: {:?}",
        group_max_update_length
    );
    // first match 18 and 26
    interface.set_grow_state(&dual_node_18_ptr, DualNodeGrowState::Stay, &mut dual_module);
    interface.set_grow_state(&dual_node_26_ptr, DualNodeGrowState::Stay, &mut dual_module);
    // cannot grow anymore, find out the reason
    let group_max_update_length = dual_module.compute_maximum_update_length(&interface);
    assert!(
        group_max_update_length.peek().unwrap().is_conflicting(&dual_node_26_ptr, &dual_node_34_ptr),
        "{name}: {:?}",
        group_max_update_length
    );
    // 34 touches 26, so it will grow the tree by absorbing 18 and 26
    interface.set_grow_state(&dual_node_18_ptr, DualNodeGrowState::Grow, &mut dual_module);
    interface.set_grow_state(&dual_node_26_ptr, DualNodeGrowState::Shrink, &mut dual_module);
    // grow the maximum
    let group_max_update_length = dual_module.compute_maximum_update_length(&interface);
    assert_eq!(group_max_update_length.get_none_zero_growth(), Some(half_weight), "{name}: {:?}", group_max_update_length);
    interface.grow(half_weight, &mut dual_module).unwrap();
    assert_eq!(interface.sum_dual_variables(), 4 * half_weight);
    // cannot grow anymore, find out the reason
    let group_max_update_length = dual_module.compute_maximum_update_length(&interface);
    assert!(
        group_max_update_length.peek().unwrap().is_conflicting(&dual_node_18_ptr, &dual_node_34_ptr),
        "{name}: {:?}",
        group_max_update_length
    );
    // for a blossom because 18 and 34 come from the same alternating tree
    let dual_node_blossom =
        interface.create_blossom(vec![dual_node_18_ptr, dual_node_26_ptr, dual_node_34_ptr], vec![], &mut dual_module);
    // grow the maximum
    let group_max_update_length = dual_module.compute_maximum_update_length(&interface);
    assert_eq!(group_max_update_length.get_none_zero_growth(), Some(2 * half_weight), "{name}: {:?}", group_max_update_length);
    interface.grow(2 * half_weight, &mut dual_module).unwrap();
    assert_eq!(interface.sum_dual_variables(), 6 * half_weight);
    // grow the maximum
    let group_max_update_length = dual_module.compute_maximum_update_length(&interface);
    assert_eq!(group_max_update_length.get_none_zero_growth(), Some(2 * half_weight), "{name}: {:?}", group_max_update_length);
    interface.grow(2 * half_weight, &mut dual_module).unwrap();
    assert_eq!(interface.sum_dual_variables(), 8 * half_weight);
    // cannot grow anymore, find out the reason
    let group_max_update_length = dual_module.compute_maximum_update_length(&interface);
    let touching = group_max_update_length.peek().unwrap().get_touching_virtual();
    assert!(
        touching == Some((dual_node_blossom, 23)) || touching == Some((dual_node_blossom, 39)),
        "{name}: {:?}",
        group_max_update_length
    );
    // blossom touches virtual boundary, so it's matched
    interface.set_grow_state(&dual_node_blossom, DualNodeGrowState::Stay, &mut dual_module);
    let group_max_update_length = dual_module.compute_maximum_update_length(&interface);
    assert!(group_max_update_length.is_empty(), "{name}: {:?}", group_max_update_length);
    // also test the reverse procedure: shrinking and expanding blossom
    interface.set_grow_state(&dual_node_blossom, DualNodeGrowState::Shrink, &mut dual_module);
    let group_max_update_length = dual_module.compute_maximum_update_length(&interface);
    assert_eq!(group_max_update_length.get_none_zero_growth(), Some(2 * half_weight), "{name}: {:?}", group_max_update_length);
    interface.grow(2 * half_weight, &mut dual_module).unwrap();
    assert_eq!(interface.sum_dual_variables(), 6 * half_weight);
    // before expand
    interface.set_grow_state(&dual_node_blossom, DualNodeGrowState::Shrink, &mut dual_module);
    let group_max_update_length = dual_module.compute_maximum_update_length(&interface);
    assert_eq!(group_max_update_length.get_none_zero_growth(), Some(2 * half_weight), "{name}: {:?}", group_max_update_length);
    interface.grow(2 * half_weight, &mut dual_module).unwrap();
    assert_eq!(interface.sum_dual_variables(), 4 * half_weight);
    // cannot shrink anymore, find out the reason
    let group_max_update_length = dual_module.compute_maximum_update_length(&interface);
    assert!(
        group_max_update_length.peek().unwrap() == MaxUpdateLength::BlossomNeedExpand(dual_node_blossom),
        "{name}: {:?}",
        group_max_update_length
    );
    // expand blossom
    interface.expand_blossom(dual_node_blossom, &mut dual_module);
    // regain access to underlying nodes
    interface.set_grow_state(&dual_node_18_ptr, DualNodeGrowState::Shrink, &mut dual_module);
    interface.set_grow_state(&dual_node_26_ptr, DualNodeGrowState::Grow, &mut dual_module);
    interface.set_grow_state(&dual_node_34_ptr, DualNodeGrowState::Shrink, &mut dual_module);
    let group_max_update_length = dual_module.compute_maximum_update_length(&interface);
    assert_eq!(group_max_update_length.get_none_zero_growth(), Some(2 * half_weight), "{name}: {:?}", group_max_update_length);
    interface.grow(2 * half_weight, &mut dual_module).unwrap();
    assert_eq!(interface.sum_dual_variables(), 2 * half_weight);
}

#[test]
fn dual_module_serial_stop_reason_2() {
    // cargo test dual_module_serial_stop_reason_2 -- --nocapture
    three_defects_in_a_column("stop_reason_2");
}

/// this test helps observe bugs of fast clear
#[test]
fn dual_module_serial_fast_clear_1() {
    // cargo test dual_module_serial_fast_clear_1 -- --nocapture
    three_defects_in_a_column("fast_clear_1");
}

#[test]
fn dual_module_grow_iterative_1() {
    // cargo test dual_module_grow_iterative_1 -- --nocapture
    let half_weight = 500;
    let initializer = code_capacity_planar_code(11, half_weight);
    let mut dual_module = DualModuleSerial::new_empty(&initializer);
    let mut interface = DualModuleInterface::new_load(&syndrome_of(vec![39, 65, 87]), &mut dual_module);
    interface.grow_iterative(4 * half_weight, &mut dual_module).unwrap();
    assert_eq!(interface.sum_dual_variables(), 3 * 4 * half_weight);
    let dual_node_39_ptr = node(&interface, 0);
    let dual_node_65_ptr = node(&interface, 1);
    let dual_node_87_ptr = node(&interface, 2);
    interface.set_grow_state(&dual_node_39_ptr, DualNodeGrowState::Shrink, &mut dual_module);
    interface.set_grow_state(&dual_node_65_ptr, DualNodeGrowState::Shrink, &mut dual_module);
    interface.set_grow_state(&dual_node_87_ptr, DualNodeGrowState::Shrink, &mut dual_module);
    interface.grow_iterative(4 * half_weight, &mut dual_module).unwrap();
    assert_eq!(interface.sum_dual_variables(), 0);
}

#[test]
fn dual_module_erasure_1() {
    // cargo test dual_module_erasure_1 -- --nocapture
    let half_weight = 500;
    let initializer = code_capacity_planar_code(11, half_weight);
    let mut dual_module = DualModuleSerial::new_empty(&initializer);
    let syndrome = SyndromePattern::new(vec![64], vec![110, 78, 57, 142, 152, 163, 164]);
    let mut interface = DualModuleInterface::new_load(&syndrome, &mut dual_module);
    for erased in [110, 78, 57, 142, 152, 163, 164] {
        assert_eq!(dual_module.edges[erased].weight, 0);
    }
    // create dual nodes and grow them by half length
    for _ in 0..3 {
        interface.grow_iterative(2 * half_weight, &mut dual_module).unwrap();
    }
    // set them to shrink
    let dual_node_ptr = node(&interface, 0);
    interface.set_grow_state(&dual_node_ptr, DualNodeGrowState::Shrink, &mut dual_module);
    // shrink them back, to make sure the operation is reversible
    for _ in 0..3 {
        interface.grow_iterative(2 * half_weight, &mut dual_module).unwrap();
    }
    assert_eq!(interface.sum_dual_variables(), 0);
    // cancel the erasures and grow the dual module in normal case, this should automatically clear the erasures
    dual_module.clear();
    for erased in [110, 78, 57, 142, 152, 163, 164] {
        assert_eq!(dual_module.edges[erased].weight, 2 * half_weight);
    }
    // no erasures this time, to test if the module recovers correctly
    let mut interface = DualModuleInterface::new_load(&syndrome_of(vec![64]), &mut dual_module);
    for _ in 0..3 {
        interface.grow_iterative(2 * half_weight, &mut dual_module).unwrap();
    }
    assert_eq!(interface.sum_dual_variables(), 6 * half_weight);
}

#[test]
fn new_empty_lists_incident_edges_in_order() {
    let initializer = SolverInitializer::new(4, vec![(1, 0, 2), (2, 1, 4), (0, 2, 6), (3, 2, 8)], vec![3]);
    let dual_module = DualModuleSerial::new_empty(&initializer);
    assert_eq!(dual_module.vertices[0].edges, vec![0, 2]);
    assert_eq!(dual_module.vertices[1].edges, vec![0, 1]);
    assert_eq!(dual_module.vertices[2].edges, vec![1, 2, 3]);
    assert_eq!(dual_module.vertices[3].edges, vec![3]);
    assert_eq!((dual_module.edges[0].left, dual_module.edges[0].right), (0, 1));
}

#[test]
fn growing_into_zero_weight_edge() {
    let initializer = SolverInitializer::new(4, vec![(0, 1, 2), (1, 2, 0), (2, 3, 2)], vec![3]);
    let mut dual_module = DualModuleSerial::new_empty(&initializer);
    let mut interface = DualModuleInterface::new_empty();
    let node = interface.create_defect_node(0, &mut dual_module);
    dual_module.grow_dual_node(&interface, &node, 2).unwrap();
    // edge 0 is fully grown, so the node takes vertex 1, whose other edge has weight 0
    assert!(dual_module.prepare_dual_node_growth_single(&interface, &node, true));
    let k = dual_module.get_dual_node_internal_ptr_optional(&node).unwrap();
    let boundary: Vec<(bool, usize)> = (0..dual_module.boundary_len(k)).map(|j| dual_module.boundary_entry(k, j)).collect();
    assert_eq!(boundary, vec![(true, 1)]);
}
