use fusion_blossom::blossom_v::safe_minimum_weight_perfect_matching;

#[test]
fn blossom_v_test_1() {
    // cargo test blossom_v_test_1 -- --nocapture
    let node_num = 4;
    let edges: Vec<(usize, usize, u32)> = vec![(0, 1, 100), (2, 3, 110), (0, 2, 500), (1, 3, 300)];
    let output = safe_minimum_weight_perfect_matching(node_num, &edges);
    assert_eq!(output, vec![1, 0, 3, 2]);
}

#[test]
fn blossom_v_prefers_cheaper_pairs() {
    // the cross pairs (0,2) and (1,3) are cheaper than (0,1) and (2,3)
    let edges: Vec<(usize, usize, u32)> = vec![(0, 1, 100), (2, 3, 110), (0, 2, 10), (1, 3, 30)];
    let output = safe_minimum_weight_perfect_matching(4, &edges);
    assert_eq!(output, vec![2, 3, 0, 1]);
}

#[test]
fn blossom_v_duplicate_edges_use_the_lighter() {
    let edges: Vec<(usize, usize, u32)> = vec![(0, 1, 100), (1, 0, 5), (2, 3, 7), (0, 2, 1), (1, 3, 200)];
    let output = safe_minimum_weight_perfect_matching(4, &edges);
    assert_eq!(output, vec![1, 0, 3, 2]);
}
