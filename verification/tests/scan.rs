use vectorscale::item_pointer::ItemPointer;
use vectorscale::result_heap::{ResultHeap, SearchResult};
use vectorscale::scan::{
    check_scan_keys, get_tuple, has_label_filter, is_cluster_mode, needs_resort, reports_stats,
    results_per_cluster, ClusterSearch, ResponseAction, ResponseIterator, ScanKeyError, SearchEvent,
    SearchStep,
};
use vectorscale::shared::StorageType;

fn result(n: u32, distance: f32) -> SearchResult {
    SearchResult {
        heap_pointer: ItemPointer::new(n, 1),
        index_pointer: ItemPointer::new(n + 1000, 1),
        distance: distance.to_bits(),
    }
}

fn row(n: u32) -> (ItemPointer, ItemPointer) {
    (ItemPointer::new(n, 1), ItemPointer::new(n + 1000, 1))
}

#[test]
fn results_come_nearest_first() {
    let mut heap = ResultHeap::new();
    assert_eq!(heap.pop(), None);
    let distances: Vec<f32> = (0..200).map(|i| ((i * 7919) % 211) as f32 - 100.0).collect();
    for (i, d) in distances.iter().enumerate() {
        heap.push(result(i as u32, *d));
    }
    heap.push(result(900, f32::NAN));
    heap.push(result(901, -0.0));
    heap.push(result(902, f32::NEG_INFINITY));
    assert_eq!(heap.len(), 203);
    let mut popped = Vec::new();
    while let Some(x) = heap.pop() {
        popped.push(f32::from_bits(x.distance));
    }
    let mut expected = distances;
    expected.extend([f32::NAN, -0.0, f32::NEG_INFINITY]);
    expected.sort_by(|a, b| a.total_cmp(b));
    assert_eq!(
        popped.iter().map(|x| x.to_bits()).collect::<Vec<_>>(),
        expected.iter().map(|x| x.to_bits()).collect::<Vec<_>>()
    );
    assert_eq!(heap.len(), 0);
}

#[test]
fn clusters_share_the_queue() {
    assert_eq!(results_per_cluster(100, 4), 25);
    assert_eq!(results_per_cluster(100, 20), 10);
    assert_eq!(results_per_cluster(100, 0), 100);
    assert_eq!(results_per_cluster(0, 3), 10);
}

#[test]
fn a_search_merges_clusters_without_doubles() {
    let mut s = ClusterSearch::new(2, 100);
    let mut step = s.start();
    assert_eq!(step, SearchStep::Begin { cluster: 0 });
    let found = |n, d| SearchEvent::Found { result: result(n, d) };
    let deleted = SearchEvent::Found {
        result: SearchResult { heap_pointer: ItemPointer::new(1, 0), ..result(1, 1.0) },
    };
    let expand = |cluster| SearchStep::Expand { cluster };
    for (event, expected) in [
        (SearchEvent::Begun, expand(0)),
        (found(1, 5.0), expand(0)),
        (found(2, 3.0), expand(0)),
        (found(1, 4.0), expand(0)),
        (deleted, expand(0)),
        (SearchEvent::Nothing { exhausted: false }, expand(0)),
        (SearchEvent::Nothing { exhausted: true }, SearchStep::Begin { cluster: 1 }),
        (SearchEvent::Begun, expand(1)),
        (found(2, 1.0), expand(1)),
        (found(3, 4.0), expand(1)),
        (SearchEvent::Nothing { exhausted: true }, SearchStep::Done),
        (SearchEvent::Begun, SearchStep::Done),
    ] {
        step = s.next(step, event);
        assert_eq!(step, expected);
    }
    let mut heap = s.results;
    assert_eq!(heap.pop(), Some(result(2, 3.0)));
    assert_eq!(heap.pop(), Some(result(3, 4.0)));
    assert_eq!(heap.pop(), Some(result(1, 5.0)));
    assert_eq!(heap.pop(), None);
}

#[test]
fn a_cluster_gives_no_more_than_its_share() {
    let mut s = ClusterSearch::new(2, 24);
    let mut step = s.start();
    step = s.next(step, SearchEvent::Begun);
    for i in 0..12 {
        assert_eq!(step, SearchStep::Expand { cluster: 0 });
        step = s.next(step, SearchEvent::Found { result: result(i, 1.0) });
    }
    assert_eq!(step, SearchStep::Begin { cluster: 1 });
    step = s.next(step, SearchEvent::Begun);
    for i in 12..24 {
        assert_eq!(step, SearchStep::Expand { cluster: 1 });
        step = s.next(step, SearchEvent::Found { result: result(i, 1.0) });
    }
    assert_eq!(step, SearchStep::Done);
    assert_eq!(s.results.len(), 24);
}

#[test]
fn a_search_ends_when_enough_is_gathered() {
    let mut s = ClusterSearch::new(3, 2);
    let mut step = s.start();
    step = s.next(step, SearchEvent::Begun);
    step = s.next(step, SearchEvent::Found { result: result(1, 1.0) });
    step = s.next(step, SearchEvent::Found { result: result(2, 1.0) });
    assert_eq!(step, SearchStep::Done);
    let none = ClusterSearch::new(0, 10);
    assert_eq!(none.start(), SearchStep::Done);
}

fn resorting(size: usize) -> ResponseIterator {
    ResponseIterator::new(None, false, 100, size)
}

#[test]
fn cluster_results_are_returned_in_order() {
    let mut heap = ResultHeap::new();
    for (n, d) in [(1, 3.0), (2, 1.0), (3, 2.0)] {
        heap.push(result(n, d));
    }
    let mut it = ResponseIterator::new(Some(heap), false, 100, 50);
    assert!(it.is_cluster_mode);
    assert_eq!(it.next(), ResponseAction::Return { row: Some(row(2)) });
    assert_eq!(it.next_with_resort(), ResponseAction::Return { row: Some(row(3)) });
    assert_eq!(it.next(), ResponseAction::Return { row: Some(row(1)) });
    assert_eq!(it.next(), ResponseAction::Return { row: None });
    assert_eq!((it.next_calls, it.next_calls_with_resort), (3, 1));
}

#[test]
fn deleted_rows_are_passed_over() {
    let mut it = resorting(0);
    assert_eq!(it.next(), ResponseAction::Consume { resort: false });
    let deleted = (ItemPointer::new(1, 0), ItemPointer::new(2, 1));
    assert_eq!(it.consumed(false, Some(deleted)), ResponseAction::Consume { resort: false });
    assert_eq!(it.consumed(false, Some(row(4))), ResponseAction::Return { row: Some(row(4)) });
    assert_eq!(it.consumed(false, None), ResponseAction::Return { row: None });
    assert_eq!(it.next_calls, 1);
    assert_eq!(it.full_distance_comparisons, 0);
    // Without rows to sort the plain order is used.
    assert_eq!(it.next_with_resort(), ResponseAction::Consume { resort: false });
    assert_eq!((it.next_calls, it.next_calls_with_resort), (2, 1));
}

#[test]
fn rows_are_sorted_by_exact_distance() {
    let mut it = resorting(3);
    let measure = |n| ResponseAction::Measure { heap_pointer: row(n).0, index_pointer: row(n).1 };
    let consume = ResponseAction::Consume { resort: true };
    assert_eq!(it.next_with_resort(), consume);
    assert_eq!(it.consumed(true, Some(row(1))), measure(1));
    assert!(!it.counts_for_stats());
    assert_eq!(it.measured(row(1).0, row(1).1, Some(5f32.to_bits())), consume);
    assert_eq!(it.consumed(true, Some(row(2))), measure(2));
    // The row is gone.
    assert_eq!(it.measured(row(2).0, row(2).1, None), consume);
    assert_eq!(it.consumed(true, Some(row(3))), measure(3));
    assert_eq!(it.measured(row(3).0, row(3).1, Some(2f32.to_bits())), consume);
    assert!(it.counts_for_stats());
    assert_eq!(it.consumed(true, Some(row(4))), measure(4));
    let third = it.measured(row(4).0, row(4).1, Some(9f32.to_bits()));
    assert_eq!(third, ResponseAction::Return { row: Some(row(3)) });
    assert_eq!(it.next_with_resort(), consume);
    assert_eq!(it.consumed(true, None), ResponseAction::Return { row: Some(row(1)) });
    assert_eq!(it.next_with_resort(), consume);
    assert_eq!(it.consumed(true, None), ResponseAction::Return { row: Some(row(4)) });
    assert_eq!(it.next_with_resort(), consume);
    assert_eq!(it.consumed(true, None), ResponseAction::Return { row: None });
    assert_eq!(it.next_calls, 7);
    assert_eq!(it.next_calls_with_resort, 4);
    assert_eq!(it.full_distance_comparisons, 4);
}

#[test]
fn scan_keys_are_checked() {
    assert_eq!(check_scan_keys(0, 1), Ok(false));
    assert_eq!(check_scan_keys(1, 1), Ok(true));
    assert_eq!(check_scan_keys(2, 1), Err(ScanKeyError::Keys { nkeys: 2 }));
    assert_eq!(check_scan_keys(-1, 1), Err(ScanKeyError::Keys { nkeys: -1 }));
    assert_eq!(check_scan_keys(0, 0), Err(ScanKeyError::OrderBys { norderbys: 0 }));
    assert_eq!(check_scan_keys(5, 2), Err(ScanKeyError::OrderBys { norderbys: 2 }));
}

#[test]
fn scans_know_what_they_need() {
    assert!(needs_resort(StorageType::SbqCompression, 3, 3));
    assert!(!needs_resort(StorageType::Plain, 3, 3));
    assert!(needs_resort(StorageType::Plain, 3, 2));
    assert!(is_cluster_mode(false) && !is_cluster_mode(true));
    assert!(has_label_filter(Some(1)));
    assert!(!has_label_filter(Some(0)) && !has_label_filter(None));
    assert!(reports_stats(14, 20, 14) && reports_stats(20, 14, 14) && !reports_stats(15, 15, 14));
}

#[test]
fn tuples_pin_their_index_page() {
    assert_eq!(get_tuple(None), None);
    let (heap, index) = row(70_000);
    assert_eq!(get_tuple(Some((heap, index))), Some((heap.to_item_pointer_data(), 71_000)));
}

#[test]
fn base_statistics_cover_the_first_rows() {
    let mut it = resorting(3);
    let counted: Vec<bool> = (0..6).map(|_| it.counts_for_base()).collect();
    assert_eq!(counted, vec![true, true, true, false, false, false]);
    assert!(!resorting(0).counts_for_base());
}
