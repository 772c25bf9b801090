use fusion_blossom::example_partition::{
    CodeCapacityPlanarCodeVerticalPartitionFour, CodeCapacityRepetitionCodePartitionHalf, NoPartition,
    PhenomenologicalPlanarCodeTimePartition,
};
use fusion_blossom::util::{translated_defect_to_reordered, IndexRange};

#[test]
fn no_partition_is_one_unit() {
    let config = NoPartition::new().build_partition(10);
    assert_eq!(config.partitions, vec![IndexRange::new(0, 10)]);
    assert!(config.fusions.is_empty());
}

#[test]
fn repetition_code_half_partition() {
    let partition = CodeCapacityRepetitionCodePartitionHalf::new(5, 3);
    assert_eq!(partition.build_reordered_vertices(6), Some(vec![0, 1, 5, 2, 3, 4]));
    let config = partition.build_partition(6);
    assert_eq!(config.partitions, vec![IndexRange::new(0, 3), IndexRange::new(4, 6)]);
    assert_eq!(config.fusions, vec![(0, 1)]);
    let reordered = partition.build_reordered_vertices(6).unwrap();
    // vertex 5 sits at position 2 after reordering
    assert_eq!(translated_defect_to_reordered(&reordered, &vec![5, 4]), vec![2, 5]);
}

#[test]
fn planar_code_four_partition_is_a_permutation() {
    let d = 7;
    let vertex_num = d * (d + 1);
    let reordered = CodeCapacityPlanarCodeVerticalPartitionFour::new(d, 3, 2).build_reordered_vertices(vertex_num).unwrap();
    assert_eq!(reordered.len(), vertex_num);
    let mut sorted = reordered.clone();
    sorted.sort();
    assert_eq!(sorted, (0..vertex_num).collect::<Vec<_>>());
}

#[test]
fn time_partition_sequential_fusion() {
    // 8 rounds of 12 vertices in 4 slices of 2 rounds
    let partition = PhenomenologicalPlanarCodeTimePartition::new(3, 7, 4);
    let config = partition.build_partition(96);
    assert_eq!(
        config.partitions,
        vec![IndexRange::new(0, 24), IndexRange::new(36, 48), IndexRange::new(60, 72), IndexRange::new(84, 96)]
    );
    assert_eq!(config.fusions, vec![(0, 1), (4, 2), (5, 3)]);
}

#[test]
fn time_partition_tree_fusion() {
    let partition = PhenomenologicalPlanarCodeTimePartition::new_tree(3, 7, 4, true, 4);
    let config = partition.build_partition(96);
    assert_eq!(config.partitions.len(), 4);
    assert_eq!(config.fusions, vec![(0, 1), (2, 3), (4, 5)]);
    // with leaves of two, two trees are fused one after the other
    let partition = PhenomenologicalPlanarCodeTimePartition::new_tree(3, 7, 4, true, 2);
    let config = partition.build_partition(96);
    assert_eq!(config.fusions, vec![(0, 1), (2, 3), (4, 5)]);
}

#[test]
fn index_range_fuse() {
    let (whole, interface) = IndexRange::new(0, 10).fuse(&IndexRange::new(15, 20));
    assert_eq!(whole, IndexRange::new(0, 20));
    assert_eq!(interface, IndexRange::new(10, 15));
}

#[test]
fn time_partition_tree_fusion_odd_leaves() {
    // five slices in one tree: the fifth leaf joins the tree over leaves 2 and 3
    let partition = PhenomenologicalPlanarCodeTimePartition::new_tree(3, 7, 5, true, 8);
    let config = partition.build_partition(96);
    assert_eq!(config.partitions.len(), 5);
    assert_eq!(config.fusions, vec![(0, 1), (2, 3), (6, 4), (5, 7)]);
    // trees of two leaves, chained in order
    let partition = PhenomenologicalPlanarCodeTimePartition::new_tree(3, 7, 5, true, 2);
    let config = partition.build_partition(96);
    assert_eq!(config.fusions, vec![(0, 1), (2, 3), (5, 6), (7, 4)]);
}
