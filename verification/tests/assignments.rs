use vectorscale::assignments::{
    calculate_worker_assignments, ClusterSizes, WorkerAssignment, WorkerAssignments, MAX_WORKERS,
};

/// The number of workers of a cluster, computed in doubles.
fn ideal(size: usize, workers: usize, total: usize) -> usize {
    (size as f64 * workers as f64 / total as f64).ceil() as usize
}

#[test]
fn no_vectors_or_no_workers_means_no_assignments() {
    assert_eq!(calculate_worker_assignments(&[], 4), vec![]);
    assert_eq!(calculate_worker_assignments(&[0, 0], 4), vec![]);
    assert_eq!(calculate_worker_assignments(&[10, 20], 0), vec![]);
}

#[test]
fn larger_clusters_get_more_workers() {
    let r = calculate_worker_assignments(&[100, 300], 4);
    assert_eq!(
        r,
        vec![
            WorkerAssignment::new(0, 0, 100, true),
            WorkerAssignment::new(1, 0, 100, true),
            WorkerAssignment::new(1, 100, 200, false),
            WorkerAssignment::new(1, 200, 300, false),
        ]
    );
}

#[test]
fn empty_clusters_get_no_worker() {
    let r = calculate_worker_assignments(&[0, 5, 0, 5], 2);
    assert_eq!(
        r,
        vec![WorkerAssignment::new(1, 0, 5, true), WorkerAssignment::new(3, 0, 5, true)]
    );
}

#[test]
fn no_more_workers_than_vectors() {
    let r = calculate_worker_assignments(&[2], 8);
    assert_eq!(
        r,
        vec![WorkerAssignment::new(0, 0, 1, true), WorkerAssignment::new(0, 1, 2, false)]
    );
    assert_eq!(calculate_worker_assignments(&[2], usize::MAX), r);
}

#[test]
fn assignments_tile_every_cluster_and_fit_the_workers() {
    for sizes in [vec![1, 2, 3], vec![7, 0, 13, 1000, 5], vec![1_000_000, 999_999, 3]] {
        for workers in [1, 2, 3, 7, 16, 64] {
            let total: usize = sizes.iter().sum();
            let r = calculate_worker_assignments(&sizes, workers);
            assert!(r.len() <= workers);
            let mut used = 0;
            for (id, &size) in sizes.iter().enumerate() {
                let own: Vec<_> = r.iter().filter(|a| a.cluster_id == id).collect();
                let expected = if size == 0 || used >= workers {
                    0
                } else {
                    ideal(size, workers, total).max(1).min(size).min(workers - used)
                };
                assert_eq!(own.len(), expected);
                used += expected;
                if expected == 0 {
                    continue;
                }
                let mut covered = vec![0usize; size.min(2000)];
                for (i, a) in own.iter().enumerate() {
                    assert_eq!(a.is_primary, i == 0);
                    for x in a.start_idx..a.end_idx.min(covered.len()) {
                        covered[x] += 1;
                    }
                }
                assert!(covered.iter().all(|&n| n == 1));
            }
        }
    }
}

#[test]
fn serving_more_clusters_only_appends() {
    let all = calculate_worker_assignments(&[10, 20, 30], 60);
    let fewer = calculate_worker_assignments(&[10, 20, 30, 0], 60);
    assert_eq!(all, fewer);
}

#[test]
fn assignments_are_read_back() {
    let mut all = WorkerAssignments::new();
    assert_eq!(all.get_assignment(0), None);
    let a = WorkerAssignment::new(3, 10, 20, true);
    let b = WorkerAssignment::new(1, 0, 5, false);
    all.set_assignment(2, a);
    assert_eq!(all.get_assignment(2), Some(a));
    // Workers before it have been given an empty place.
    assert_eq!(all.get_assignment(0), Some(WorkerAssignment::new(0, 0, 0, false)));
    assert_eq!(all.get_assignment(3), None);
    all.set_assignment(0, b);
    assert_eq!(all.get_assignment(2), Some(a));
    assert_eq!(all.get_assignment(0), Some(b));
    // A worker beyond the last place is ignored.
    all.set_assignment(MAX_WORKERS, a);
    assert_eq!(all.get_assignment(MAX_WORKERS), None);
    assert_eq!(all.count_workers_for_cluster(3), 1);
    assert_eq!(all.count_workers_for_cluster(1), 1);
    assert_eq!(all.count_workers_for_cluster(0), 1);
    assert_eq!(all.count_workers_for_cluster(9), 0);
}

#[test]
fn assignments_become_ready() {
    let mut all = WorkerAssignments::new();
    assert!(!all.is_ready());
    all.mark_ready();
    assert!(all.is_ready());
}

#[test]
fn cluster_sizes_are_counted() {
    let mut sizes = ClusterSizes::new(3);
    sizes.increment(0);
    sizes.increment(2);
    sizes.increment(2);
    sizes.increment(3);
    assert_eq!(sizes.get_all(), vec![1, 0, 2]);
    assert_eq!(sizes.get(2), 2);
    assert_eq!(sizes.get(3), 0);
    assert_eq!(ClusterSizes::new(100).get_all().len(), 64);
}

#[test]
fn a_larger_cluster_gets_no_fewer_workers() {
    for (size, expected) in [(1, 1), (10, 1), (11, 2), (50, 5), (51, 6), (99, 10), (100, 10)] {
        let r = calculate_worker_assignments(&[size, 100 - size], 10);
        assert_eq!(r.iter().filter(|a| a.cluster_id == 0).count(), expected);
        assert_eq!(ideal(size, 10, 100), expected);
    }
}
