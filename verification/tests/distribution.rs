use vectorscale::distribution::{
    calculate_queue_capacities, calculate_worker_distribution, ClusterStats,
};

fn stats(counts: &[usize]) -> Vec<ClusterStats> {
    counts.iter().enumerate().map(|(id, &n)| ClusterStats::with_count(id, n)).collect()
}

#[test]
fn stats_keep_the_first_samples() {
    let mut s = ClusterStats::new();
    assert_eq!((s.cluster_id, s.count), (0, 0));
    s.add_vector(&[1, 2], 2);
    s.add_vector(&[3], 2);
    s.add_vector(&[4], 2);
    assert_eq!(s.count, 3);
    assert_eq!(s.sample_vectors, vec![vec![1, 2], vec![3]]);
}

#[test]
fn capacities_grow_with_the_share() {
    let s = stats(&[50, 30, 20, 0]);
    for base in [1, 7, 100, 10240] {
        let r = calculate_queue_capacities(&s, 100, base);
        for (i, c) in s.iter().enumerate() {
            let ratio = c.count as f64 / 100.0;
            let expected = ((base as f64 * (1.0 + ratio * 5.0)) as usize).clamp(base, base * 10);
            assert_eq!(r[i], expected);
            assert!(base <= r[i] && r[i] <= 10 * base);
        }
    }
    assert_eq!(calculate_queue_capacities(&s, 100, 100), vec![350, 250, 200, 100]);
    assert_eq!(calculate_queue_capacities(&s, 0, 100), vec![100; 4]);
    // A cluster that is larger than all is kept within the limit.
    assert_eq!(calculate_queue_capacities(&stats(&[1000]), 1, 100), vec![1000]);
}

#[test]
fn fewer_workers_than_clusters_go_to_the_first() {
    let r = calculate_worker_distribution(&stats(&[5, 500, 50]), 2);
    assert_eq!(r, vec![vec![0], vec![1], vec![]]);
}

#[test]
fn remaining_workers_follow_the_sizes() {
    // Of the five remaining workers the large clusters are entitled to 2.25 each and the small
    // one to 0.5, which rounds up.
    let r = calculate_worker_distribution(&stats(&[10, 45, 45]), 8);
    assert_eq!(r, vec![vec![0, 7], vec![1, 3, 4], vec![2, 5, 6]]);
}

#[test]
fn without_vectors_the_last_cluster_gets_the_rest() {
    let r = calculate_worker_distribution(&stats(&[0, 0]), 5);
    assert_eq!(r, vec![vec![0], vec![1, 2, 3, 4]]);
}

#[test]
fn too_many_shares_are_taken_from_the_smallest() {
    // Each of four equal clusters is entitled to 0.5 of two workers, which rounds up.
    let r = calculate_worker_distribution(&stats(&[10, 10, 10, 10]), 6);
    assert_eq!(r, vec![vec![0, 4], vec![1, 5], vec![2], vec![3]]);
}

#[test]
fn every_worker_is_placed_once() {
    for counts in [vec![1], vec![3, 1, 4, 1, 5], vec![0, 0, 7], vec![1000, 1, 1, 1], vec![0; 4]] {
        for workers in [0, 1, 3, 5, 8, 33, 64] {
            let r = calculate_worker_distribution(&stats(&counts), workers);
            assert_eq!(r.len(), counts.len());
            let mut all: Vec<usize> = r.iter().flatten().copied().collect();
            all.sort();
            let expected: Vec<usize> = (0..workers).collect();
            assert_eq!(all, expected);
            if workers >= counts.len() {
                for (c, own) in r.iter().enumerate() {
                    assert_eq!(own[0], c);
                    if counts[c] == 0 && counts.iter().any(|&n| n > 0) {
                        assert!(own.len() <= 2);
                    }
                }
            }
        }
    }
}

#[test]
fn larger_clusters_have_no_smaller_queues() {
    let sizes: Vec<usize> = (0..200).map(|i| i * i * 7 + i).collect();
    let total: usize = sizes.iter().sum();
    for base in [1, 3, 1000, 12345] {
        let r = calculate_queue_capacities(&stats(&sizes), total, base);
        for i in 1..r.len() {
            assert!(r[i - 1] <= r[i]);
        }
    }
}

#[test]
fn larger_clusters_get_no_smaller_share_of_the_rest() {
    // Of seven remaining workers the shares are 0.7, 1.4 and 4.9.
    let r = calculate_worker_distribution(&stats(&[100, 200, 700]), 10);
    assert_eq!(r.iter().map(|w| w.len()).collect::<Vec<_>>(), vec![2, 2, 6]);
    let sizes = [31, 7, 1000, 0, 52, 52, 400, 3];
    for workers in sizes.len()..64 {
        let r = calculate_worker_distribution(&stats(&sizes), workers);
        for a in 0..sizes.len() {
            for b in 0..sizes.len() {
                assert!(sizes[a] >= sizes[b] || r[a].len() <= r[b].len());
            }
        }
    }
}
