use fusion_blossom::blossom_v_mwpm;
use fusion_blossom::example_codes::{
    CircuitLevelPlanarCode,
    CodeCapacityPlanarCode, CodeCapacityRepetitionCode, CodeCapacityRotatedCode, CodeEdge, ExampleCode, PhenomenologicalPlanarCode,
    PhenomenologicalRotatedCode,
};
use fusion_blossom::util::SyndromePattern;

fn with_half_weights(mut code: ExampleCode, half_weight: u32) -> ExampleCode {
    for edge in code.edges.iter_mut() {
        edge.half_weight = half_weight as _;
    }
    code
}

#[test]
fn repetition_code_layout() {
    let code = CodeCapacityRepetitionCode::create_code(3);
    assert_eq!(code.vertex_num(), 4);
    let pairs: Vec<(usize, usize)> = code.edges.iter().map(|e| e.vertices).collect();
    assert_eq!(pairs, vec![(0, 1), (1, 2), (0, 3)]);
    assert!(!code.is_virtual(0));
    assert!(!code.is_virtual(1));
    assert!(code.is_virtual(2));
    assert!(code.is_virtual(3));
    assert_eq!(code.vertices[0].neighbor_edges, vec![0, 2]);
    assert_eq!(code.vertices[1].neighbor_edges, vec![0, 1]);
    assert_eq!(code.vertices[3].neighbor_edges, vec![2]);
    let initializer = code.get_initializer();
    assert_eq!(initializer.vertex_num, 4);
    assert_eq!(initializer.virtual_vertices, vec![2, 3]);
    assert_eq!(initializer.weighted_edges, vec![(0, 1, 0), (1, 2, 0), (0, 3, 0)]);
}

#[test]
fn planar_code_layout() {
    let code = CodeCapacityPlanarCode::create_code(3);
    assert_eq!(code.vertex_num(), 12);
    let pairs: Vec<(usize, usize)> = code.edges.iter().map(|e| e.vertices).collect();
    assert_eq!(
        pairs,
        vec![
            (0, 1),
            (1, 2),
            (0, 3),
            (0, 4),
            (1, 5),
            (4, 5),
            (5, 6),
            (4, 7),
            (4, 8),
            (5, 9),
            (8, 9),
            (9, 10),
            (8, 11)
        ]
    );
    let initializer = code.get_initializer();
    assert_eq!(initializer.virtual_vertices, vec![2, 3, 6, 7, 10, 11]);
    assert_eq!(code.vertices[5].neighbor_edges, vec![4, 5, 6, 9]);
}

#[test]
fn initializer_doubles_half_weights() {
    let code = with_half_weights(CodeCapacityRepetitionCode::create_code(3), 25);
    let initializer = code.get_initializer();
    assert_eq!(initializer.weighted_edges, vec![(0, 1, 50), (1, 2, 50), (0, 3, 50)]);
}

#[test]
fn syndrome_round_trip() {
    let mut code = CodeCapacityPlanarCode::create_code(3);
    code.set_syndrome(&SyndromePattern::new(vec![5, 0, 5], vec![12, 3]));
    assert_eq!(code.get_defect_vertices(), vec![0, 5]);
    assert_eq!(code.get_erasures(), vec![3, 12]);
    assert!(code.is_defect(5));
    assert!(!code.is_defect(4));
    let syndrome = code.get_syndrome();
    assert_eq!(syndrome.defect_vertices, vec![0, 5]);
    assert_eq!(syndrome.erasures, vec![3, 12]);
    code.set_defect_vertices(&[1]);
    assert_eq!(code.get_defect_vertices(), vec![1]);
    code.set_erasures(&[]);
    assert_eq!(code.get_erasures(), Vec::<usize>::new());
}

#[test]
fn errors_flip_both_ends_but_not_virtual_vertices() {
    let mut code = CodeCapacityRepetitionCode::create_code(5);
    let syndrome = code.generate_errors(&[1]);
    assert_eq!(syndrome.defect_vertices, vec![1, 2]);
    let syndrome = code.generate_errors(&[2, 3]);
    // vertex 3 flips twice, vertex 4 is virtual
    assert_eq!(syndrome.defect_vertices, vec![1]);
    let syndrome = code.generate_errors(&[0, 4]);
    // vertex 1 and vertex 0 (twice) flip; vertex 5 is virtual
    assert_eq!(syndrome.defect_vertices, Vec::<usize>::new());
}

#[test]
fn clearing_errors_removes_every_defect() {
    let mut code = CodeCapacityRepetitionCode::create_code(3);
    code.generate_errors(&[0]);
    assert_eq!(code.get_defect_vertices(), vec![0, 1]);
    code.clear_errors();
    assert_eq!(code.get_defect_vertices(), Vec::<usize>::new());
    assert_eq!(code.get_erasures(), vec![0, 1, 2]);
}

#[test]
fn fresh_edge_has_no_weight() {
    let edge = CodeEdge::new(3, 7);
    assert_eq!(edge.vertices, (3, 7));
    assert_eq!(edge.half_weight, 0);
    assert!(!edge.is_erasure);
}

#[test]
fn repetition_code_decodes_a_single_error() {
    let mut code = with_half_weights(CodeCapacityRepetitionCode::create_code(5), 50);
    let syndrome = code.generate_errors(&[1]);
    let initializer = code.get_initializer();
    let matching = blossom_v_mwpm(&initializer, &syndrome.defect_vertices);
    assert_eq!(matching, vec![2, 1]);
}

#[test]
fn reordering_vertices_renames_edge_ends() {
    let mut code = CodeCapacityRepetitionCode::create_code(3);
    code.generate_errors(&[0]);
    // new vertex i is old vertex order[i]
    let order: Vec<usize> = vec![3, 2, 1, 0];
    code.reorder_vertices(&order);
    let pairs: Vec<(usize, usize)> = code.edges.iter().map(|e| e.vertices).collect();
    assert_eq!(pairs, vec![(3, 2), (2, 1), (3, 0)]);
    assert!(code.is_virtual(0));
    assert!(code.is_virtual(1));
    assert_eq!(code.get_defect_vertices(), vec![2, 3]);
}

#[test]
fn old_to_new_inverts_a_reordering() {
    let old_to_new = fusion_blossom::util::build_old_to_new(&[2, 0, 1]);
    assert_eq!(old_to_new, vec![Some(1), Some(2), Some(0)]);
}

#[test]
fn phenomenological_planar_code_layout() {
    let code = PhenomenologicalPlanarCode::create_code(3, 1);
    assert_eq!(code.vertex_num(), 24);
    assert_eq!(code.edges.len(), 32);
    let pairs: Vec<(usize, usize)> = code.edges.iter().map(|e| e.vertices).collect();
    assert_eq!(pairs[0], (0, 1));
    assert_eq!(pairs[12], (8, 11));
    assert_eq!(&pairs[13..19], &[(0, 12), (1, 13), (4, 16), (5, 17), (8, 20), (9, 21)]);
    assert_eq!(pairs[19], (12, 13));
    assert_eq!(pairs[31], (20, 23));
    let initializer = code.get_initializer();
    assert_eq!(initializer.virtual_vertices, vec![2, 3, 6, 7, 10, 11, 14, 15, 18, 19, 22, 23]);
    assert_eq!(code.vertices[5].neighbor_edges, vec![4, 5, 6, 9, 16]);
    assert_eq!(code.vertices[17].neighbor_edges, vec![16, 23, 24, 25, 28]);
}

#[test]
fn rotated_code_layout() {
    let code = CodeCapacityRotatedCode::create_code(3);
    assert_eq!(code.vertex_num(), 8);
    let pairs: Vec<(usize, usize)> = code.edges.iter().map(|e| e.vertices).collect();
    assert_eq!(pairs, vec![(0, 2), (0, 3), (1, 3), (2, 4), (3, 4), (3, 5), (4, 6), (4, 7), (5, 7)]);
    let initializer = code.get_initializer();
    assert_eq!(initializer.virtual_vertices, vec![1, 2, 5, 6]);
    assert_eq!(code.vertices[3].neighbor_edges, vec![1, 2, 4, 5]);
}

#[test]
fn phenomenological_rotated_code_layout() {
    let code = PhenomenologicalRotatedCode::create_code(3, 1);
    assert_eq!(code.vertex_num(), 16);
    assert_eq!(code.edges.len(), 26);
    let pairs: Vec<(usize, usize)> = code.edges.iter().map(|e| e.vertices).collect();
    assert_eq!(&pairs[0..9], &[(0, 2), (0, 3), (1, 3), (2, 4), (3, 4), (3, 5), (4, 6), (4, 7), (5, 7)]);
    let links: Vec<(usize, usize)> = (0..8).map(|k| (k, k + 8)).collect();
    assert_eq!(&pairs[9..17], &links[..]);
    assert_eq!(&pairs[17..26], &[(8, 10), (8, 11), (9, 11), (10, 12), (11, 12), (11, 13), (12, 14), (12, 15), (13, 15)]);
    let initializer = code.get_initializer();
    assert_eq!(initializer.virtual_vertices, vec![1, 2, 5, 6, 9, 10, 13, 14]);
    assert_eq!(code.vertices[3].neighbor_edges, vec![1, 2, 4, 5, 12]);
    assert_eq!(code.vertices[11].neighbor_edges, vec![12, 18, 19, 21, 22]);
}

#[test]
fn circuit_level_planar_code_layout() {
    let code = CircuitLevelPlanarCode::create_code(3, 1);
    assert_eq!(code.vertex_num(), 24);
    assert_eq!(code.edges.len(), 41);
    let pairs: Vec<(usize, usize)> = code.edges.iter().map(|e| e.vertices).collect();
    assert_eq!(
        &pairs[13..28],
        &[
            (0, 12),
            (0, 13),
            (0, 16),
            (0, 17),
            (1, 13),
            (1, 17),
            (4, 16),
            (4, 17),
            (4, 20),
            (4, 21),
            (5, 17),
            (5, 21),
            (8, 20),
            (8, 21),
            (9, 21)
        ]
    );
    assert_eq!(pairs[28], (12, 13));
    let initializer = code.get_initializer();
    assert_eq!(initializer.virtual_vertices, vec![2, 3, 6, 7, 10, 11, 14, 15, 18, 19, 22, 23]);
    assert_eq!(code.vertices[5].neighbor_edges, vec![4, 5, 6, 9, 23, 24]);
    assert_eq!(code.vertices[17].neighbor_edges, vec![16, 18, 20, 23, 32, 33, 34, 37]);
}
