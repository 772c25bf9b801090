use fusion_blossom::dual_module_parallel::{DualModuleParallel, DualModuleParallelConfig, PartitionError};
use fusion_blossom::util::SolverInitializer;

fn line_graph(n: usize) -> SolverInitializer {
    let weighted_edges = (0..n - 1).map(|i| (i, i + 1, 100)).collect();
    SolverInitializer::new(n, weighted_edges, vec![0, n - 1])
}

fn config(partitions: Vec<Vec<usize>>, interfaces: Vec<(usize, usize, Vec<usize>)>) -> DualModuleParallelConfig {
    DualModuleParallelConfig { thread_pool_size: 0, partitions, interfaces }
}

#[test]
fn partition_sanity_check_accepts_a_valid_plan() {
    let initializer = line_graph(5);
    let plan = config(vec![vec![0, 1], vec![3, 4]], vec![(0, 1, vec![2])]);
    assert_eq!(plan.partition_sanity_check(&initializer), Ok(()));
}

#[test]
fn partition_sanity_check_errors() {
    let initializer = line_graph(5);
    assert_eq!(config(vec![], vec![]).partition_sanity_check(&initializer), Err(PartitionError::NoPartition));
    assert_eq!(
        config(vec![vec![0, 7]], vec![]).partition_sanity_check(&initializer),
        Err(PartitionError::InvalidVertex { vertex_index: 7 })
    );
    assert_eq!(
        config(vec![vec![0, 1], vec![1, 2]], vec![(0, 1, vec![])]).partition_sanity_check(&initializer),
        Err(PartitionError::DuplicateVertex { vertex_index: 1 })
    );
    assert_eq!(
        config(vec![vec![0, 1], vec![3, 4]], vec![(0, 2, vec![2])]).partition_sanity_check(&initializer),
        Err(PartitionError::DependencyWrong { unit_index: 2, child: 2 })
    );
    assert_eq!(
        config(vec![vec![0], vec![1], vec![4]], vec![(0, 1, vec![2]), (0, 2, vec![3])]).partition_sanity_check(&initializer),
        Err(PartitionError::FusedTwice { unit_index: 0 })
    );
    assert_eq!(
        config(vec![vec![0, 1], vec![3, 4]], vec![]).partition_sanity_check(&initializer),
        Err(PartitionError::NotFused { unit_index: 0 })
    );
}

#[test]
fn parallel_module_without_partition() {
    let initializer = line_graph(5);
    let module = DualModuleParallel::new_config(&initializer, DualModuleParallelConfig::default());
    assert_eq!(module.config.partitions, vec![vec![0, 1, 2, 3, 4]]);
    assert_eq!(module.units.len(), 1);
    assert!(module.units[0].is_active);
    assert_eq!(module.units[0].wrapped_module.as_ref().unwrap().vertices.len(), 5);
    assert_eq!(module.vertex_to_unit, vec![0; 5]);
    assert_eq!(module.initializer.weighted_edges, initializer.weighted_edges);
}

#[test]
fn parallel_module_assigns_vertices_to_units() {
    let initializer = line_graph(6);
    let plan = config(vec![vec![0, 1], vec![3, 4]], vec![(0, 1, vec![2])]);
    let module = DualModuleParallel::new_config(&initializer, plan);
    assert!(module.units.is_empty());
    assert_eq!(module.vertex_to_unit, vec![0, 0, 2, 1, 1, usize::MAX]);
}
