//! Tests of the partition model and the boundary-conflict dispatch of the
//! parallel primal orchestrator.

use fusion_blossom::dual_module::{Conflict, NodeForest};
use fusion_blossom::primal_module_parallel::{
    thread_pool_size, PartitionInfo, PartitionUnit, PrimalModuleParallelConfig,
};

/// Two leaf units over vertex ranges [0, 6) and [6, 12), fused by unit 2.
fn two_unit_partition() -> PartitionInfo {
    let mut partition = PartitionInfo {
        vertex_num: 12,
        units: vec![
            PartitionUnit { owning_range: (0, 6), children: None, parent: None },
            PartitionUnit { owning_range: (6, 12), children: None, parent: None },
        ],
    };
    let fused = partition.fuse(0, 1);
    assert_eq!(fused, 2);
    partition
}

#[test]
fn fusing_appends_the_merged_unit() {
    let partition = two_unit_partition();
    assert_eq!(partition.units.len(), 3);
    assert_eq!(partition.units[2].owning_range, (0, 12));
    assert_eq!(partition.units[2].children, Some((0, 1)));
    assert_eq!(partition.units[0].parent, Some(2));
    assert_eq!(partition.units[1].parent, Some(2));
}

#[test]
fn default_config_uses_one_thread() {
    assert_eq!(thread_pool_size(), 1);
    let config = PrimalModuleParallelConfig::default();
    assert_eq!(config.thread_pool_size, 1);
}

#[test]
fn vertex_lookup_finds_owning_leaf_unit() {
    let partition = two_unit_partition();
    assert_eq!(partition.unit_of_vertex(3), Some(0));
    assert_eq!(partition.unit_of_vertex(6), Some(1));
    assert_eq!(partition.unit_of_vertex(11), Some(1));
    assert_eq!(partition.unit_of_vertex(12), None);
}

#[test]
fn lowest_common_ancestor_names_the_fused_unit() {
    let partition = two_unit_partition();
    assert_eq!(partition.lowest_common_ancestor(0, 0), Some(0));
    assert_eq!(partition.lowest_common_ancestor(0, 1), Some(2));
    assert_eq!(partition.lowest_common_ancestor(1, 0), Some(2));
    assert_eq!(partition.lowest_common_ancestor(0, 2), Some(2));
}

#[test]
fn boundary_conflict_dispatched_to_fused_unit_once() {
    let partition = two_unit_partition();
    let mut forest = NodeForest::new();
    forest.add_syndrome_vertex(3); // node 0, owned by unit 0
    forest.add_syndrome_vertex(7); // node 1, owned by unit 1
    // a synthetic boundary conflict between the two adjacent units
    let boundary = Conflict::Conflicting { node_1: 0, node_2: 1 };
    let buckets = partition.distribute_conflicts(&forest, &vec![boundary]);
    assert_eq!(buckets.len(), 3);
    // neither child unit claims it; the fused parent resolves it exactly once
    assert!(buckets[0].is_empty());
    assert!(buckets[1].is_empty());
    assert_eq!(buckets[2], vec![boundary]);
}

#[test]
fn single_unit_conflicts_stay_in_their_unit() {
    let partition = two_unit_partition();
    let mut forest = NodeForest::new();
    forest.add_syndrome_vertex(3); // node 0, unit 0
    forest.add_syndrome_vertex(4); // node 1, unit 0
    forest.add_syndrome_vertex(7); // node 2, unit 1
    let conflicts = vec![
        Conflict::Conflicting { node_1: 0, node_2: 1 },
        Conflict::TouchingVirtual { node: 2, virtual_vertex: 11 },
    ];
    let buckets = partition.distribute_conflicts(&forest, &conflicts);
    assert_eq!(buckets[0], vec![conflicts[0]]);
    assert_eq!(buckets[1], vec![conflicts[1]]);
    assert!(buckets[2].is_empty());
}

#[test]
fn blossom_conflict_follows_its_first_leaf() {
    let partition = two_unit_partition();
    let mut forest = NodeForest::new();
    forest.add_syndrome_vertex(3); // node 0, unit 0
    forest.add_syndrome_vertex(4); // node 1, unit 0
    forest.add_syndrome_vertex(5); // node 2, unit 0
    let blossom = forest.add_blossom(vec![0, 1, 2], vec![(0, 0), (1, 1), (2, 2)]);
    let conflicts = vec![Conflict::BlossomNeedExpand { blossom }];
    let buckets = partition.distribute_conflicts(&forest, &conflicts);
    assert_eq!(buckets[0], vec![conflicts[0]]);
    assert!(buckets[1].is_empty());
    assert!(buckets[2].is_empty());
}

#[test]
fn boundary_conflict_resolved_once_under_concurrent_dispatch() {
    let partition = two_unit_partition();
    let mut forest = NodeForest::new();
    forest.add_syndrome_vertex(3); // node 0, owned by unit 0
    forest.add_syndrome_vertex(7); // node 1, owned by unit 1
    let boundary = Conflict::Conflicting { node_1: 0, node_2: 1 };
    let buckets = partition.distribute_conflicts(&forest, &vec![boundary]);
    // dispatch every unit's bucket concurrently and count how many units
    // claim resolution of the injected boundary conflict
    let resolutions = std::sync::atomic::AtomicUsize::new(0);
    let pool = rayon::ThreadPoolBuilder::new().num_threads(2).build().unwrap();
    pool.scope(|scope| {
        for bucket in buckets.iter() {
            let resolutions = &resolutions;
            scope.spawn(move |_| {
                for conflict in bucket.iter() {
                    assert_eq!(*conflict, boundary);
                    resolutions.fetch_add(1, std::sync::atomic::Ordering::SeqCst);
                }
            });
        }
    });
    assert_eq!(resolutions.load(std::sync::atomic::Ordering::SeqCst), 1);
}

#[test]
fn conflict_naming_unknown_node_is_dispatched_nowhere() {
    let partition = two_unit_partition();
    let forest = NodeForest::new();
    let conflicts = vec![Conflict::Conflicting { node_1: 0, node_2: 1 }];
    let buckets = partition.distribute_conflicts(&forest, &conflicts);
    for bucket in buckets.iter() {
        assert!(bucket.is_empty());
    }
}
