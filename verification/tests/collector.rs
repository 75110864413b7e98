use vectorscale::collector::{samples_row, SamplingResult, VectorCollector, MAX_CLUSTER_SAMPLES};
use vectorscale::item_pointer::{ItemPointer, ItemPointerData};

fn tid(n: u32) -> ItemPointerData {
    ItemPointer::new(n, 1).to_item_pointer_data()
}

fn collect(max: usize, threshold: usize, rows: u32) -> VectorCollector {
    let mut c = VectorCollector::new(max, threshold);
    for i in 1..=rows {
        c.collect(tid(i), &[i]);
    }
    c
}

fn kept(c: &VectorCollector) -> Vec<u32> {
    assert_eq!(c.vectors.len(), c.heap_tids.len());
    for (v, t) in c.vectors.iter().zip(&c.heap_tids) {
        assert_eq!(*t, tid(v[0]));
    }
    c.vectors.iter().map(|v| v[0]).collect()
}

#[test]
fn without_a_sample_size_every_vector_is_kept() {
    let c = collect(0, 1000, 20);
    assert!(!c.use_sampling);
    assert_eq!(kept(&c), (1..=20).collect::<Vec<_>>());
    assert_eq!(c.total_vectors_seen, 20);
}

#[test]
fn every_nth_vector_is_sampled() {
    let c = collect(4, 10, 20);
    assert!(c.use_sampling);
    assert_eq!(c.sample_interval, 3);
    assert_eq!(kept(&c), vec![3, 6, 9, 12]);
    assert_eq!(c.total_vectors_seen, 20);
}

#[test]
fn a_table_is_sampled_only_beyond_the_threshold() {
    let c = collect(4, 10, 10);
    assert!(!c.use_sampling);
    assert_eq!(kept(&c), (1..=10).collect::<Vec<_>>());
    let c = collect(4, 10, 11);
    assert!(c.use_sampling);
    assert_eq!(kept(&c), vec![3, 6, 9]);
    // Up to a threshold that is smaller than the sample nothing is left out either.
    assert_eq!(kept(&collect(8, 3, 6)), (1..=6).collect::<Vec<_>>());
    assert_eq!(kept(&collect(8, 3, 12)), (1..=8).collect::<Vec<_>>());
}

#[test]
fn a_sample_stops_at_its_size() {
    let c = collect(5, 5, 20);
    assert_eq!(c.sample_interval, 1);
    assert_eq!(kept(&c), vec![1, 2, 3, 4, 5]);
}

#[test]
fn a_threshold_of_zero_always_samples() {
    let c = collect(5, 0, 20);
    assert!(c.use_sampling);
    assert_eq!(kept(&c), vec![1, 2, 3, 4, 5]);
}

#[test]
fn sample_interval_is_rounded_up() {
    for (max, threshold) in [(100_000usize, 1_000_000usize), (3, 10), (7, 50), (1, 2), (6, 6)] {
        let expected = if threshold > max {
            (threshold as f64 / max as f64).ceil() as usize
        } else {
            1
        };
        assert_eq!(VectorCollector::new(max, threshold).sample_interval, expected);
    }
}

#[test]
fn rows_are_drawn_by_rate() {
    for rate in [0.0f64, 0.25, 0.5, 1.0, 2.0, -0.0, -1.0, f64::NAN, f64::INFINITY, f64::NEG_INFINITY] {
        for draw in [0.0f64, 0.1, 0.25, 0.499_999, 0.5, 0.75, 0.999_999] {
            assert_eq!(samples_row(draw.to_bits(), rate.to_bits()), !(draw > rate), "{} {}", draw, rate);
        }
    }
}

#[test]
fn samples_are_counted_by_cluster() {
    let mut r = SamplingResult::new(2);
    r.record(1, &[1, 2]);
    r.record(1, &[3, 4]);
    r.record(0, &[5, 6]);
    r.record(2, &[7, 8]);
    assert_eq!(r.total_vectors, 4);
    assert_eq!(r.cluster_stats[0].count, 1);
    assert_eq!(r.cluster_stats[1].count, 2);
    assert_eq!(r.cluster_stats[1].sample_vectors, vec![vec![1, 2], vec![3, 4]]);
    for _ in 0..200 {
        r.record(0, &[9]);
    }
    assert_eq!(r.cluster_stats[0].count, 201);
    assert_eq!(r.cluster_stats[0].sample_vectors.len(), MAX_CLUSTER_SAMPLES);
}

#[test]
fn partial_samples_are_scaled_up() {
    for rate in [0.1f64, 0.3, 0.5, 0.999, 1e-3, 5e-324, 1.0, 1.5, 0.0, -0.5, f64::NAN] {
        let mut r = SamplingResult::new(2);
        for _ in 0..37 {
            r.record(0, &[]);
        }
        r.scale(rate.to_bits());
        let expected = if rate < 1.0 && rate > 0.0 {
            (37f64 * (1.0 / rate)) as usize
        } else {
            37
        };
        assert_eq!(r.cluster_stats[0].count, expected, "{}", rate);
        assert_eq!(r.total_vectors, expected);
        assert_eq!(r.cluster_stats[1].count, 0);
    }
}

#[test]
fn scaling_keeps_the_order_of_clusters() {
    let mut r = SamplingResult::new(3);
    for (cluster, n) in [(0, 2), (1, 3), (2, 3)] {
        for _ in 0..n {
            r.record(cluster, &[]);
        }
    }
    r.scale(0.3f64.to_bits());
    let counts: Vec<usize> = r.cluster_stats.iter().map(|s| s.count).collect();
    assert_eq!(counts, vec![6, 10, 10]);
}
