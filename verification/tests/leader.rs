use vectorscale::assignments::{WorkerAssignment, WorkerAssignments};
use vectorscale::distribution::ClusterStats;
use vectorscale::leader::{
    actual_num_clusters, assign_workers, build_index_with_clustering, check_num_clusters,
    count_cluster_sizes, perform_clustering, plan_parallel_build, BuildKind, ClusterCountError,
    Leader, LeaderAction, LeaderEvent, WorkerPolicy,
};
use vectorscale::shared::{
    toc_estimate_single_chunk, ParallelBuildState, StorageType, TocEstimator, SHM_TOC_CENTROIDS_KEY,
    SHM_TOC_SHARED_KEY, SHM_TOC_TABLESCANDESC_KEY,
};

#[test]
fn cluster_counts_are_checked() {
    assert_eq!(check_num_clusters(1), Err(ClusterCountError::TooFew { num_clusters: 1 }));
    assert_eq!(check_num_clusters(0), Err(ClusterCountError::TooFew { num_clusters: 0 }));
    assert_eq!(check_num_clusters(2), Ok(()));
    assert_eq!(check_num_clusters(64), Ok(()));
    assert_eq!(check_num_clusters(65), Err(ClusterCountError::TooMany { num_clusters: 65 }));
    assert_eq!(actual_num_clusters(8, 100), 8);
    assert_eq!(actual_num_clusters(8, 5), 5);
}

#[test]
fn cluster_sizes_come_from_choices() {
    assert_eq!(count_cluster_sizes(&[0, 2, 2, 1, 2, 9], 4), vec![1, 1, 3, 0]);
    assert_eq!(count_cluster_sizes(&[], 2), vec![0, 0]);
}

#[test]
fn vectors_go_to_the_nearest_cluster() {
    let bits = |x: f32| x.to_bits();
    let distances = vec![
        vec![bits(1.0), bits(2.0)],
        vec![bits(3.0), bits(0.5)],
        vec![bits(2.0), bits(2.0)],
    ];
    let (assignments, sizes) = perform_clustering(&distances, 2);
    assert_eq!(assignments, vec![0, 1, 1]);
    assert_eq!(sizes, vec![1, 2]);
    assert_eq!(sizes.iter().sum::<usize>(), distances.len());
}

fn policy() -> WorkerPolicy {
    WorkerPolicy {
        build_parallel: true,
        has_labels: false,
        storage_type: StorageType::SbqCompression,
        forced_workers: -1,
        heap_tuples: 100_000,
        min_vectors_for_parallel_build: 65_536,
        planned_workers: 4,
    }
}

#[test]
fn workers_follow_the_policy() {
    assert_eq!(policy().workers(), 4);
    assert_eq!(WorkerPolicy { forced_workers: 7, ..policy() }.workers(), 7);
    assert_eq!(WorkerPolicy { forced_workers: 0, ..policy() }.workers(), 0);
    assert_eq!(WorkerPolicy { heap_tuples: 65_536, ..policy() }.workers(), 4);
    assert_eq!(WorkerPolicy { heap_tuples: 65_535, ..policy() }.workers(), 0);
    assert_eq!(WorkerPolicy { has_labels: true, ..policy() }.workers(), 0);
    assert_eq!(WorkerPolicy { build_parallel: false, ..policy() }.workers(), 0);
    assert_eq!(WorkerPolicy { storage_type: StorageType::Plain, ..policy() }.workers(), 0);
}

#[test]
fn builds_are_parallel_with_workers_and_clusters() {
    assert_eq!(build_index_with_clustering(4, 4, policy()), Ok(BuildKind::Parallel { workers: 4 }));
    assert_eq!(build_index_with_clustering(4, 1, policy()), Ok(BuildKind::Sequential));
    let none = WorkerPolicy { forced_workers: 0, ..policy() };
    assert_eq!(build_index_with_clustering(4, 4, none), Ok(BuildKind::Sequential));
    assert_eq!(
        build_index_with_clustering(1, 1, policy()),
        Err(ClusterCountError::TooFew { num_clusters: 1 })
    );
    assert_eq!(
        build_index_with_clustering(65, 65, policy()),
        Err(ClusterCountError::TooMany { num_clusters: 65 })
    );
}

#[test]
fn a_build_is_planned_from_cluster_sizes() {
    let plan = plan_parallel_build(&[50, 30, 20], 8, 100, 4, 12);
    assert_eq!(plan.total_vectors, 100);
    assert_eq!(plan.queue_capacities, vec![350, 250, 200]);
    assert_eq!(plan.max_capacity, 350);
    assert_eq!(plan.num_workers, 8);
    assert_eq!(plan.worker_distribution, vec![vec![0, 3, 4, 5], vec![1, 6, 7], vec![2]]);
    assert_eq!(plan.cluster_queues_size, 3 * (24 + 40 + 12) + 800 * 28);
    assert_eq!(plan.centroids_size, 8 + 3 * (8 + 16));
    assert_eq!(plan.cluster_stats[1].cluster_id, 1);
    assert_eq!(plan.cluster_stats[1].count, 30);
    // At least one worker for each cluster, and no more than there is room for.
    assert_eq!(plan_parallel_build(&[5, 5, 5], 1, 100, 4, 12).num_workers, 3);
    assert_eq!(plan_parallel_build(&[5, 5, 5], 1000, 100, 4, 12).num_workers, 64);
}

#[test]
fn workers_are_told_their_shares() {
    let plan = plan_parallel_build(&[50, 30, 0], 7, 100, 4, 12);
    let mut all = WorkerAssignments::new();
    assign_workers(&plan.worker_distribution, &plan.cluster_stats, &mut all);
    for (cluster, workers) in plan.worker_distribution.iter().enumerate() {
        assert_eq!(all.count_workers_for_cluster(cluster), workers.len());
        let size = plan.cluster_stats[cluster].count;
        for (i, &w) in workers.iter().enumerate() {
            let a = all.get_assignment(w).unwrap();
            assert_eq!(a.cluster_id, cluster);
            assert_eq!(a.is_primary, i == 0);
            if size > 0 {
                let chunk = (size + workers.len() - 1) / workers.len();
                assert_eq!(a.start_idx, i * chunk);
                assert_eq!(a.end_idx, ((i + 1) * chunk).min(size));
            } else {
                assert_eq!((a.start_idx, a.end_idx), (0, usize::MAX));
            }
        }
    }
    assert_eq!(all.get_assignment(7), None);
    assert!(!all.is_ready());
}

#[test]
fn an_empty_cluster_is_built_whole_by_each_worker() {
    let mut all = WorkerAssignments::new();
    let stats = vec![ClusterStats::with_count(0, 0)];
    assign_workers(&[vec![1, 0, 2], vec![]], &stats, &mut all);
    assert_eq!(all.get_assignment(1), Some(WorkerAssignment::new(0, 0, usize::MAX, true)));
    assert_eq!(all.get_assignment(0), Some(WorkerAssignment::new(0, 0, usize::MAX, false)));
    assert_eq!(all.get_assignment(2), Some(WorkerAssignment::new(0, 0, usize::MAX, false)));
}

fn run(leader: Leader, events: &[LeaderEvent]) -> Vec<LeaderAction> {
    let mut actions = vec![LeaderAction::AllocateSegment];
    for &event in events {
        let next = leader.next(*actions.last().unwrap(), event);
        actions.push(next);
    }
    actions
}

#[test]
fn the_leader_goes_through_a_build() {
    let leader = Leader { num_clusters: 2, num_workers: 3 };
    let done = LeaderEvent::Done;
    let actions = run(
        leader,
        &[
            LeaderEvent::Allocated { present: true },
            done,
            LeaderEvent::Launched { workers: 2 },
            done,
            done,
            done,
            LeaderEvent::Built { ntuples: 42 },
            done,
            done,
            done,
            done,
            done,
            done,
            done,
        ],
    );
    let ntuples = 42;
    assert_eq!(
        actions[1..],
        [
            LeaderAction::FillSegment,
            LeaderAction::LaunchWorkers,
            LeaderAction::WaitForAttach { short: true },
            LeaderAction::AssignWorkers,
            LeaderAction::ScanHeap,
            LeaderAction::FlushBatch,
            LeaderAction::MarkProducerDone { ntuples },
            LeaderAction::FinishQueue { cluster_id: 0, ntuples },
            LeaderAction::FinishQueue { cluster_id: 1, ntuples },
            LeaderAction::StoreTuples { ntuples },
            LeaderAction::WaitForFinish { ntuples },
            LeaderAction::CollectStartNodes { ntuples },
            LeaderAction::CleanUp { built: Some(42) },
            LeaderAction::Return { ntuples },
        ]
    );
}

#[test]
fn the_leader_falls_back_to_a_sequential_build() {
    let leader = Leader { num_clusters: 2, num_workers: 3 };
    let fallback = [
        LeaderAction::CleanUp { built: None },
        LeaderAction::BuildSequentially,
        LeaderAction::Return { ntuples: 7 },
    ];
    let rest = [LeaderEvent::Done, LeaderEvent::Built { ntuples: 7 }];
    let no_segment = run(leader, &[LeaderEvent::Allocated { present: false }, rest[0], rest[1]]);
    assert_eq!(no_segment[1..], fallback);
    let no_worker = run(
        leader,
        &[
            LeaderEvent::Allocated { present: true },
            LeaderEvent::Done,
            LeaderEvent::Launched { workers: 0 },
            rest[0],
            rest[1],
        ],
    );
    assert_eq!(no_worker[3..], fallback);
    let all = run(
        leader,
        &[
            LeaderEvent::Allocated { present: true },
            LeaderEvent::Done,
            LeaderEvent::Launched { workers: 3 },
        ],
    );
    assert_eq!(all[3], LeaderAction::WaitForAttach { short: false });
    // An event that answers nothing changes nothing.
    assert_eq!(
        leader.next(LeaderAction::ScanHeap, LeaderEvent::Allocated { present: true }),
        LeaderAction::ScanHeap
    );
}

#[test]
fn shared_memory_is_estimated_part_by_part() {
    let mut e = TocEstimator { space_for_chunks: 0, number_of_keys: 0 };
    toc_estimate_single_chunk(&mut e, 64);
    toc_estimate_single_chunk(&mut e, 32);
    assert_eq!(e, TocEstimator { space_for_chunks: 96, number_of_keys: 2 });
    let state = ParallelBuildState::new();
    assert!(!state.producer_done && !state.assignments_ready);
    assert_eq!(state.consumers_finished, 0);
    assert_eq!(SHM_TOC_SHARED_KEY, 0xD000000000000001);
    assert_eq!(SHM_TOC_TABLESCANDESC_KEY, 0xD000000000000002);
    assert_eq!(SHM_TOC_CENTROIDS_KEY, 0xD000000000000004);
}
