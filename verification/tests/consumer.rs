use vectorscale::assignments::{WorkerAssignment, WorkerAssignments};
use vectorscale::consumer::{
    batch_count, flush_interval, lock_modes, required_keys, workers_per_cluster, ConsumerAction,
    ConsumerEvent, ConsumerState, LockMode, Worker, WorkerAction, WorkerEvent, MAX_BATCH_SIZE,
};

#[test]
fn locks_depend_on_concurrency() {
    assert_eq!(lock_modes(true).heap, LockMode::Share);
    assert_eq!(lock_modes(true).index, LockMode::AccessExclusive);
    assert_eq!(lock_modes(false).heap, LockMode::ShareUpdateExclusive);
    assert_eq!(lock_modes(false).index, LockMode::RowExclusive);
}

#[test]
fn a_worker_needs_four_parts() {
    assert_eq!(
        required_keys(),
        vec![0xD000000000000001, 0xD000000000000003, 0xD000000000000004, 0xD000000000000005]
    );
}

#[test]
fn workers_of_a_cluster_are_counted() {
    assert_eq!(workers_per_cluster(None, 3), 1);
    let mut all = WorkerAssignments::new();
    all.set_assignment(0, WorkerAssignment::new(2, 0, 1, true));
    all.set_assignment(1, WorkerAssignment::new(2, 1, 2, false));
    assert_eq!(workers_per_cluster(Some(&all), 2), 2);
    assert_eq!(workers_per_cluster(Some(&all), 0), 0);
}

#[test]
fn batches_are_fair_shares_within_limits() {
    for available in [0usize, 1, 31, 32, 33, 100, 255, 256, 257, 1000, 100_000] {
        for workers in [0usize, 1, 2, 3, 8, 64] {
            let target = if available > 0 && workers > 0 {
                (available / workers).max(32).min(256)
            } else {
                32
            };
            let expected = available.min(target);
            assert_eq!(batch_count(available, workers), expected);
            assert!(expected <= MAX_BATCH_SIZE);
            assert_eq!(expected > 0, available > 0);
        }
    }
    assert_eq!(batch_count(100, 2), 50);
}

#[test]
fn flush_intervals_shrink_with_workers() {
    let rate = 0.05f64.to_bits();
    assert_eq!(flush_interval(1_000_000, 4, 1, rate), 12_500);
    assert_eq!(flush_interval(1_000_000, 4, 5, rate), 2_500);
    // Not below a hundred, unless a single worker flushes more often than that.
    assert_eq!(flush_interval(40_000, 4, 10, rate), 100);
    assert_eq!(flush_interval(1_000, 4, 1, rate), 12);
    assert_eq!(flush_interval(1_000, 4, 5, rate), 12);
    assert_eq!(flush_interval(10, 1, 2, 0), 1);
    for total in [0, 10, 1_000, 8_000, 9_000, 100_000, 5_000_000] {
        for workers in 1..20 {
            let fewer = flush_interval(total, 4, workers, rate);
            assert!(flush_interval(total, 4, workers + 1, rate) <= fewer);
        }
    }
    assert_eq!(flush_interval(0, 0, 1, rate), 1);
    assert_eq!(flush_interval(0, 0, 0, rate), 1);
}

fn worker(has_assignments: bool) -> Worker {
    Worker { worker_number: 2, num_clusters: 3, is_concurrent: false, has_assignments }
}

#[test]
fn a_worker_waits_for_its_assignment() {
    let w = worker(true);
    let ready = |ready| WorkerEvent::Ready { ready };
    let mut action = w.start();
    assert_eq!(action, WorkerAction::CheckReady);
    let locks = lock_modes(false);
    let given = WorkerEvent::Assigned { assignment: Some(WorkerAssignment::new(1, 0, 9, true)) };
    for (event, expected) in [
        (ready(false), WorkerAction::PrepareToSleep),
        (WorkerEvent::Done, WorkerAction::CheckReadyAgain),
        (ready(false), WorkerAction::Sleep),
        (WorkerEvent::Done, WorkerAction::CheckReady),
        (ready(false), WorkerAction::PrepareToSleep),
        (WorkerEvent::Done, WorkerAction::CheckReadyAgain),
        (ready(true), WorkerAction::CancelSleep),
        (WorkerEvent::Done, WorkerAction::ReadAssignment),
        (given, WorkerAction::OpenRelations { cluster_id: 1, locks }),
        (WorkerEvent::Done, WorkerAction::BuildSubgraph { cluster_id: 1, locks }),
        (WorkerEvent::Done, WorkerAction::CountFinished { locks }),
        (WorkerEvent::Done, WorkerAction::CloseRelations { locks }),
        (WorkerEvent::Done, WorkerAction::Exit),
        (WorkerEvent::Done, WorkerAction::Exit),
    ] {
        action = w.next(action, event);
        assert_eq!(action, expected);
    }
    assert_eq!(w.next(WorkerAction::CheckReady, ready(true)), WorkerAction::ReadAssignment);
    assert_eq!(
        w.next(WorkerAction::ReadAssignment, WorkerEvent::Assigned { assignment: None }),
        WorkerAction::Exit
    );
}

#[test]
fn a_worker_without_assignments_builds_its_own_number() {
    let w = worker(false);
    assert_eq!(
        w.start(),
        WorkerAction::OpenRelations { cluster_id: 2, locks: lock_modes(false) }
    );
    assert_eq!(Worker { worker_number: 3, ..w }.start(), WorkerAction::Exit);
}

#[test]
fn a_worker_inserts_every_vector_once() {
    let mut s = ConsumerState::new(1, 0, 2, 2);
    let mut action = ConsumerAction::MeasureQueue;
    let done = ConsumerEvent::Done;
    for (event, expected) in [
        (ConsumerEvent::Available { entries: 3 }, ConsumerAction::PopBatch { count: 3 }),
        (ConsumerEvent::Popped { entries: 3 }, ConsumerAction::CreateNode { index: 0 }),
        (done, ConsumerAction::ChooseStartNode { index: 0 }),
        (done, ConsumerAction::InsertNode { index: 0 }),
        (done, ConsumerAction::CreateNode { index: 1 }),
        (done, ConsumerAction::InsertNode { index: 1 }),
        (done, ConsumerAction::FlushCache { index: 1 }),
        (done, ConsumerAction::CreateNode { index: 2 }),
        (done, ConsumerAction::InsertNode { index: 2 }),
        (done, ConsumerAction::MeasureQueue),
        (ConsumerEvent::Available { entries: 1 }, ConsumerAction::PopBatch { count: 1 }),
        (ConsumerEvent::Popped { entries: 0 }, ConsumerAction::MeasureQueue),
        (ConsumerEvent::Available { entries: 0 }, ConsumerAction::CheckFinished),
        (ConsumerEvent::Finished { finished: false }, ConsumerAction::WaitForQueue),
        (done, ConsumerAction::MeasureQueue),
        (ConsumerEvent::Available { entries: 0 }, ConsumerAction::CheckFinished),
        (ConsumerEvent::Finished { finished: true }, ConsumerAction::FinalFlush),
        (done, ConsumerAction::Exit),
    ] {
        action = s.next(action, event);
        assert_eq!(action, expected);
    }
    assert_eq!(s.ntuples, 3);
    assert!(s.start_node_set);
}
