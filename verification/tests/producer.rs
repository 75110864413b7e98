use vectorscale::assignments::ClusterSizes;
use vectorscale::item_pointer::{ItemPointer, ItemPointerData};
use vectorscale::producer::{BatchBuffer, ProducerState, BATCH_SIZE, PROGRESS_INTERVAL};
use vectorscale::queue::{BatchProgress, ClusterQueueHeader, ClusterQueues, QueueMemory};

fn tid(n: u32) -> ItemPointerData {
    ItemPointer::new(n, 1).to_item_pointer_data()
}

fn queues(capacity: usize, clusters: usize) -> (ClusterQueues, QueueMemory) {
    let q = ClusterQueues::new(clusters, capacity, 1);
    let mut m = QueueMemory {
        headers: vec![ClusterQueueHeader::new(1, 1); clusters],
        data: vec![0; clusters * capacity * 4],
    };
    q.initialize(&mut m);
    (q, m)
}

#[test]
fn a_buffer_is_full_after_a_batch() {
    let mut b = BatchBuffer::new();
    assert!(!b.is_full());
    for i in 0..BATCH_SIZE {
        b.entries.push((tid(i as u32), vec![]));
    }
    assert!(b.is_full());
    b.clear();
    assert!(b.entries.is_empty());
}

#[test]
fn vectors_of_one_cluster_are_pushed_together() {
    let (q, mut m) = queues(200, 2);
    let mut sizes = ClusterSizes::new(2);
    let mut p = ProducerState::new(1000);
    for i in 0..BATCH_SIZE as u32 {
        assert!(p.push_with_batch(&q, &mut m, &mut sizes, 0, tid(i), &[i]));
    }
    assert_eq!(q.queue_size(&m, 0), 0);
    assert_eq!(p.ntuples, 0);
    // The next one finds the buffer full.
    assert!(p.push_with_batch(&q, &mut m, &mut sizes, 0, tid(64), &[64]));
    assert_eq!(q.queue_size(&m, 0), 64);
    assert_eq!(p.ntuples, 64);
    // Another cluster pushes what is waiting.
    assert!(p.push_with_batch(&q, &mut m, &mut sizes, 1, tid(65), &[65]));
    assert_eq!(q.queue_size(&m, 0), 65);
    assert_eq!(q.queue_size(&m, 1), 0);
    assert_eq!(p.ntuples, 65);
    assert!(p.flush_batch(&q, &mut m));
    assert_eq!(p.ntuples, 66);
    assert_eq!(q.queue_size(&m, 1), 1);
    assert_eq!(sizes.get_all(), vec![65, 1]);
    for i in 0..65 {
        assert_eq!(q.pop_from_queue(&mut m, 0), Some((tid(i), vec![i])));
    }
    assert_eq!(q.pop_from_queue(&mut m, 1), Some((tid(65), vec![65])));
}

#[test]
fn a_full_queue_makes_the_producer_wait() {
    let (q, mut m) = queues(3, 2);
    let mut sizes = ClusterSizes::new(2);
    let mut p = ProducerState::new(10);
    for i in 0..4 {
        assert!(p.push_with_batch(&q, &mut m, &mut sizes, 0, tid(i), &[i]));
    }
    // Two fit, two wait.
    assert!(!p.push_with_batch(&q, &mut m, &mut sizes, 1, tid(9), &[9]));
    assert_eq!(p.ntuples, 2);
    assert_eq!(sizes.get_all(), vec![4, 0]);
    assert_eq!(q.pop_from_queue(&mut m, 0), Some((tid(0), vec![0])));
    assert!(!p.push_with_batch(&q, &mut m, &mut sizes, 1, tid(9), &[9]));
    assert_eq!(q.pop_from_queue(&mut m, 0), Some((tid(1), vec![1])));
    assert_eq!(q.pop_from_queue(&mut m, 0), Some((tid(2), vec![2])));
    assert!(p.push_with_batch(&q, &mut m, &mut sizes, 1, tid(9), &[9]));
    assert_eq!(p.ntuples, 4);
    assert_eq!(q.pop_from_queue(&mut m, 0), Some((tid(3), vec![3])));
    assert_eq!(sizes.get_all(), vec![4, 1]);
}

#[test]
fn rows_that_do_not_exist_are_counted_but_not_pushed() {
    let (q, mut m) = queues(10, 1);
    let mut sizes = ClusterSizes::new(1);
    let mut p = ProducerState::new(10);
    let nowhere = ItemPointer::new(1, 0).to_item_pointer_data();
    assert!(p.push_with_batch(&q, &mut m, &mut sizes, 0, nowhere, &[1]));
    assert!(p.push_with_batch(&q, &mut m, &mut sizes, 0, tid(2), &[2]));
    assert!(p.flush_batch(&q, &mut m));
    assert_eq!(p.ntuples, 1);
    assert_eq!(sizes.get_all(), vec![2]);
    assert!(p.flush_batch(&q, &mut m));
    assert_eq!(p.ntuples, 1);
}

#[test]
fn single_steps_of_a_flush() {
    let mut p = ProducerState::new(10);
    assert!(!p.must_flush(0));
    assert!(p.must_flush(1));
    p.buffer(1, tid(1), &[1]);
    p.buffer(1, tid(2), &[2]);
    assert!(!p.must_flush(1));
    assert!(p.must_flush(0));
    assert!(!p.record_push(BatchProgress { next: 1, pushed: 1 }));
    assert_eq!(p.batch_next, 1);
    assert!(p.record_push(BatchProgress { next: 2, pushed: 1 }));
    assert_eq!((p.ntuples, p.batch_next, p.batch_buffer.entries.len()), (2, 0, 0));
}

#[test]
fn progress_is_reported_once_per_interval() {
    let mut p = ProducerState::new(10);
    assert!(!p.progress_due());
    p.ntuples = PROGRESS_INTERVAL;
    assert!(p.progress_due());
    assert!(!p.progress_due());
    p.ntuples = PROGRESS_INTERVAL + 1;
    assert!(!p.progress_due());
    p.ntuples = 2 * PROGRESS_INTERVAL;
    assert!(p.progress_due());
    // A batch goes past the next multiple.
    p.ntuples = 3 * PROGRESS_INTERVAL - 30;
    assert!(!p.progress_due());
    p.ntuples = 3 * PROGRESS_INTERVAL + 34;
    assert!(p.progress_due());
    assert!(!p.progress_due());
}

#[test]
fn rows_are_handed_on_in_whole_batches() {
    let batches = std::cell::RefCell::new(Vec::new());
    let push = |cluster: usize, entries: &Vec<(ItemPointerData, Vec<u32>)>| {
        batches.borrow_mut().push((cluster, entries.len()));
        entries.len() - 1
    };
    let mut p = ProducerState::new(10);
    p.flush_by(&push);
    p.take_row(1, tid(1), &[1], &push);
    for i in 2..=BATCH_SIZE as u32 {
        p.take_row(1, tid(i), &[i], &push);
    }
    assert_eq!(*batches.borrow(), vec![]);
    assert_eq!(p.batch_buffer.entries.len(), BATCH_SIZE);
    p.take_row(1, tid(65), &[65], &push);
    p.take_row(0, tid(66), &[66], &push);
    assert_eq!(*batches.borrow(), vec![(1, BATCH_SIZE), (1, 1)]);
    assert_eq!(p.ntuples, BATCH_SIZE - 1);
    p.flush_by(&push);
    assert_eq!(batches.borrow().last(), Some(&(0, 1)));
    assert!(p.batch_buffer.entries.is_empty());
}
