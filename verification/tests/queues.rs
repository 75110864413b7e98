use vectorscale::item_pointer::{ItemPointer, ItemPointerData};
use vectorscale::queue::{
    estimate_queues_size, BatchProgress, ClusterQueueHeader, ClusterQueues, PopStep, PushOutcome,
    PushStep, QueueMemory, DEFAULT_QUEUE_CAPACITY,
};

fn tid(block: u32, offset: u16) -> ItemPointerData {
    ItemPointer::new(block, offset).to_item_pointer_data()
}

fn queues(capacities: &[usize], dimensions: usize) -> (ClusterQueues, QueueMemory) {
    let queues = ClusterQueues::new(capacities.len(), capacities[0], dimensions);
    let words: usize = capacities.iter().map(|c| c * (3 + dimensions)).sum();
    let header = ClusterQueueHeader::new(1, 1);
    let mut memory = QueueMemory { headers: vec![header; capacities.len()], data: vec![0; words] };
    queues.initialize_with_capacities(&mut memory, capacities);
    (queues, memory)
}

#[test]
fn entries_come_out_in_order() {
    let (q, mut m) = queues(&[4, 3], 2);
    assert_eq!(q.pop_from_queue(&mut m, 0), None);
    assert_eq!(q.push_to_queue(&mut m, 0, tid(1, 1), &[10, 11]), PushOutcome::Pushed);
    assert_eq!(q.push_to_queue(&mut m, 0, tid(2, 2), &[20]), PushOutcome::Pushed);
    assert_eq!(q.push_to_queue(&mut m, 1, tid(3, 3), &[30, 31]), PushOutcome::Pushed);
    assert_eq!(q.queue_size(&m, 0), 2);
    assert_eq!(q.available_space(&m, 0), 1);
    assert_eq!(q.pop_from_queue(&mut m, 0), Some((tid(1, 1), vec![10, 11])));
    assert_eq!(q.pop_from_queue(&mut m, 0), Some((tid(2, 2), vec![20])));
    assert_eq!(q.pop_from_queue(&mut m, 0), None);
    assert_eq!(q.pop_from_queue(&mut m, 1), Some((tid(3, 3), vec![30, 31])));
}

#[test]
fn a_ring_holds_one_less_than_its_capacity() {
    let (q, mut m) = queues(&[3], 1);
    assert_eq!(q.push_to_queue(&mut m, 0, tid(1, 1), &[1]), PushOutcome::Pushed);
    assert_eq!(q.push_to_queue(&mut m, 0, tid(2, 1), &[2]), PushOutcome::Pushed);
    assert_eq!(q.push_to_queue(&mut m, 0, tid(3, 1), &[3]), PushOutcome::Full);
    assert_eq!(q.available_space(&m, 0), 0);
    // Round and round.
    for i in 3..50 {
        let (t, v) = q.pop_from_queue(&mut m, 0).unwrap();
        assert_eq!((t, v), (tid(i - 2, 1), vec![i - 2]));
        assert_eq!(q.push_to_queue(&mut m, 0, tid(i, 1), &[i]), PushOutcome::Pushed);
        assert_eq!(q.queue_size(&m, 0), 2);
    }
}

#[test]
fn rows_that_do_not_exist_are_rejected() {
    let (q, mut m) = queues(&[4], 1);
    assert_eq!(q.push_to_queue(&mut m, 0, tid(1, 0), &[1]), PushOutcome::Rejected);
    assert_eq!(q.push_to_queue(&mut m, 0, tid(u32::MAX, 1), &[1]), PushOutcome::Rejected);
    assert_eq!(q.queue_size(&m, 0), 0);
}

#[test]
fn batches_skip_what_points_at_no_row() {
    let (q, mut m) = queues(&[5], 1);
    let entries = vec![
        (tid(1, 1), vec![1]),
        (tid(2, 0), vec![2]),
        (tid(3, 1), vec![3]),
        (tid(4, 1), vec![4]),
        (tid(5, 1), vec![5]),
        (tid(6, 1), vec![6]),
    ];
    let first = q.push_batch_to_queue(&mut m, 0, &entries, 0);
    assert_eq!(first, BatchProgress { next: 5, pushed: 4 });
    let mut tids = vec![ItemPointerData::zeroed(); 8];
    let mut vectors = vec![Vec::new(); 8];
    assert_eq!(q.pop_batch_from_queue(&mut m, 0, 3, &mut tids, &mut vectors), 3);
    assert_eq!(tids[..3], [tid(1, 1), tid(3, 1), tid(4, 1)]);
    assert_eq!(vectors[..4], [vec![1], vec![3], vec![4], vec![]]);
    let second = q.push_batch_to_queue(&mut m, 0, &entries, first.next);
    assert_eq!(second, BatchProgress { next: 6, pushed: 1 });
    assert_eq!(q.pop_batch_from_queue(&mut m, 0, 8, &mut tids, &mut vectors), 2);
    assert_eq!(tids[..2], [tid(5, 1), tid(6, 1)]);
    assert_eq!(q.pop_batch_from_queue(&mut m, 0, 8, &mut tids, &mut vectors), 0);
    assert_eq!(q.push_batch_to_queue(&mut m, 0, &[], 0), BatchProgress { next: 0, pushed: 0 });
}

#[test]
fn a_queue_is_finished_when_marked_and_empty() {
    let (q, mut m) = queues(&[3, 3], 1);
    assert!(!q.is_queue_finished(&m, 0));
    q.push_to_queue(&mut m, 0, tid(1, 1), &[1]);
    q.mark_queue_finished(&mut m, 0);
    assert!(!q.is_queue_finished(&m, 0));
    // What was in it is still there.
    assert_eq!(q.pop_from_queue(&mut m, 0), Some((tid(1, 1), vec![1])));
    assert!(q.is_queue_finished(&m, 0));
    assert!(!q.is_queue_finished(&m, 1));
}

#[test]
fn queues_can_share_one_capacity() {
    let q = ClusterQueues::new(2, 6, 1);
    let header = ClusterQueueHeader::new(1, 1);
    let mut m = QueueMemory { headers: vec![header; 2], data: vec![0; 48] };
    q.initialize(&mut m);
    assert_eq!(q.available_space(&m, 0), 5);
    assert_eq!(q.available_space(&m, 1), 5);
    // Where capacities are missing the common one is used.
    q.initialize_with_capacities(&mut m, &[3]);
    assert_eq!(q.available_space(&m, 0), 2);
    assert_eq!(q.available_space(&m, 1), 5);
    assert_eq!(DEFAULT_QUEUE_CAPACITY, 10240);
}

#[test]
fn shared_memory_is_laid_out_in_parts() {
    let cv = 12;
    // Entry: 12 bytes and four for each component.
    assert_eq!(ClusterQueues::calculate_size(2, 10, 3, cv), 24 + 2 * 40 + 2 * 12 + 2 * 10 * 24);
    let q = ClusterQueues::new(2, 10, 3);
    assert_eq!(q.entry_size, 24);
    assert_eq!(q.get_headers_ptr(), 24);
    assert_eq!(q.get_cv_ptr(), 24 + 80);
    assert_eq!(q.get_data_ptr(cv), 24 + 80 + 24);
    assert_eq!(q.get_header(1), 24 + 40);
    assert_eq!(q.get_cv(1, cv), 24 + 80 + 12);
    let (_, m) = queues(&[5, 10], 3);
    assert_eq!(q.get_entry(&m.headers, cv, 0, 2), 24 + 80 + 24 + 2 * 24);
    assert_eq!(q.get_entry(&m.headers, cv, 1, 0), 24 + 80 + 24 + 5 * 24);
}

#[test]
fn estimated_memory_has_room_for_all_queues() {
    let capacities = [5usize, 10, 7];
    let (dims, cv) = (3, 12);
    let estimate = estimate_queues_size(&capacities, dims, cv);
    let expected: usize =
        capacities.iter().map(|&c| ClusterQueues::calculate_size(1, c, dims, cv)).sum();
    assert_eq!(estimate, expected);
    let (q, m) = queues(&capacities, dims);
    let end = q.get_entry(&m.headers, cv, 2, 6) + q.entry_size;
    assert!(end <= estimate);
}

#[test]
fn headers_decide_on_single_steps() {
    let mut h = ClusterQueueHeader::new(3, 16);
    assert_eq!(h.pop_step(), PopStep::Empty);
    assert_eq!(h.push_step(tid(1, 0)), PushStep::Reject);
    assert_eq!(h.push_step(tid(1, 1)), PushStep::Write { slot: 0, next_tail: 1 });
    h.tail = 2;
    assert_eq!(h.push_step(tid(1, 1)), PushStep::Wait);
    assert_eq!(h.pop_step(), PopStep::Take { slot: 0, next_head: 1 });
    assert_eq!(h.queue_size(), 2);
    h.head = 2;
    h.tail = 1;
    assert_eq!(h.queue_size(), 2);
    assert_eq!(h.available_space(), 0);
    assert_eq!(h.pop_step(), PopStep::Take { slot: 2, next_head: 0 });
    h.head = 1;
    h.finished = true;
    assert!(h.is_finished());
}

#[test]
fn every_entry_is_taken_once_in_the_order_of_the_pushes() {
    let (q, mut m) = queues(&[5], 1);
    let entries: Vec<_> = (1..=40u32).map(|i| (tid(i, (i % 3) as u16), vec![i])).collect();
    let mut tids = vec![ItemPointerData::zeroed(); 3];
    let mut vectors = vec![Vec::new(); 3];
    let mut taken = Vec::new();
    let mut next = 0;
    while next < entries.len() || q.queue_size(&m, 0) > 0 {
        next = q.push_batch_to_queue(&mut m, 0, &entries, next).next;
        // One consumer takes a single entry, another a batch.
        if let Some((t, v)) = q.pop_from_queue(&mut m, 0) {
            taken.push((t, v));
        }
        let n = q.pop_batch_from_queue(&mut m, 0, 3, &mut tids, &mut vectors);
        for i in 0..n {
            taken.push((tids[i], vectors[i].clone()));
        }
    }
    let valid: Vec<_> = entries.into_iter().filter(|e| e.1[0] % 3 != 0).collect();
    assert_eq!(taken, valid);
}

#[test]
fn counts_tell_the_ring() {
    for capacity in 1..6usize {
        for taken in 0..20 {
            for pushed in 0..30 {
                let r = ClusterQueueHeader::from_counts(taken, pushed, capacity, 16, true);
                assert_eq!(r.is_some(), taken <= pushed && pushed - taken < capacity);
                if let Some(h) = r {
                    assert_eq!((h.head, h.tail), (taken % capacity, pushed % capacity));
                    assert_eq!(h.queue_size(), pushed - taken);
                    assert_eq!((h.capacity, h.element_size, h.finished), (capacity, 16, true));
                    if let PopStep::Take { slot, next_head } = h.pop_step() {
                        assert_eq!((slot, next_head), (h.head, (taken + 1) % capacity));
                    }
                }
            }
        }
    }
    assert_eq!(ClusterQueueHeader::from_counts(0, 0, 0, 16, false), None);
}
