use rand::rngs::StdRng;
use rand::SeedableRng;
use vectorscale::k_means::{
    k_means_lookup, k_means_lookup_many, k_means_method, quick_centers, Method,
};
use vectorscale::kmeans1d::{find_best_cut, kmeans1d, settle_cuts, sort_numbers, Boundaries};
use vectorscale::lloyd::{
    assign_each, centers_at, find_centroids, lower_weights, weighted_index, LloydKMeans,
};
use vectorscale::refill::{donor_step, DonorStep, Refill, RefillAction, RefillEvent};
use vectorscale::single::{is_no_larger, is_not_a_number, is_smaller, total_place_of};

fn bits(x: &[f32]) -> Vec<u32> {
    x.iter().map(|v| v.to_bits()).collect()
}

fn floats(x: &[u32]) -> Vec<f32> {
    x.iter().map(|v| f32::from_bits(*v)).collect()
}

const SOME: [f32; 11] = [
    f32::NEG_INFINITY,
    -1.5,
    -1e-40,
    -0.0,
    0.0,
    1e-40,
    0.5,
    3.0,
    1e30,
    f32::INFINITY,
    f32::NAN,
];

#[test]
fn numbers_are_ordered_as_the_machine_does() {
    for x in SOME {
        assert_eq!(is_not_a_number(x.to_bits()), x.is_nan());
        for y in SOME {
            let (a, b) = (x.to_bits(), y.to_bits());
            assert_eq!(is_smaller(a, b), x < y, "{} {}", x, y);
            assert_eq!(is_no_larger(a, b), x <= y, "{} {}", x, y);
            assert_eq!(total_place_of(a) < total_place_of(b), x.total_cmp(&y).is_lt());
        }
    }
    let negative_nan = (-f32::NAN).to_bits();
    assert!(total_place_of(negative_nan) < total_place_of(f32::NEG_INFINITY.to_bits()));
}

#[test]
fn lookup_takes_the_last_nearest() {
    assert_eq!(k_means_lookup(&bits(&[3.0, 1.0, 2.0])), 1);
    assert_eq!(k_means_lookup(&bits(&[1.0, 5.0, 1.0])), 2);
    assert_eq!(k_means_lookup(&bits(&[f32::NAN, 5.0, f32::NAN])), 1);
    assert_eq!(k_means_lookup(&bits(&[f32::NAN, f32::NAN])), 0);
    assert_eq!(k_means_lookup(&bits(&[f32::INFINITY, f32::INFINITY])), 1);
    assert_eq!(k_means_lookup(&bits(&[0.0, -0.0, 1.0])), 1);
    assert_eq!(k_means_lookup(&bits(&[7.0])), 0);
}

#[test]
fn lookup_many_lists_all_distances() {
    let d = bits(&[3.0, 1.0]);
    assert_eq!(k_means_lookup_many(&d), vec![(d[0], 0), (d[1], 1)]);
}

#[test]
fn methods_depend_on_samples() {
    assert_eq!(k_means_method(4, 4, 3), Method::QuickCenters);
    assert_eq!(k_means_method(4, 5, 1), Method::OneDimensional);
    assert_eq!(k_means_method(4, 5, 2), Method::Lloyd);
}

#[test]
fn quick_centers_are_the_samples() {
    let samples = vec![vec![1, 2], vec![3, 4]];
    let random = vec![vec![9, 9], vec![8, 8], vec![7, 7]];
    assert_eq!(quick_centers(3, &samples, &random), vec![vec![1, 2], vec![3, 4], vec![7, 7]]);
    assert_eq!(quick_centers(2, &samples, &random[..2]), samples);
}

#[test]
fn numbers_are_sorted_and_ties_keep_their_order() {
    let a = bits(&[2.0, -0.0, 5.0, 0.0, -3.0, 2.0, f32::INFINITY, -0.0]);
    let sorted = sort_numbers(&a);
    assert_eq!(sorted, bits(&[-3.0, -0.0, 0.0, -0.0, 2.0, 2.0, 5.0, f32::INFINITY]));
    let mut expected = floats(&a);
    expected.sort_by(|x, y| x.partial_cmp(y).unwrap());
    assert_eq!(sorted, bits(&expected));
    assert!(sort_numbers(&[]).is_empty());
    let many: Vec<f32> = (0..1000).map(|i| ((i * 7919) % 1009) as f32 - 500.0).collect();
    let mut expected = many.clone();
    expected.sort_by(|x, y| x.partial_cmp(y).unwrap());
    assert_eq!(floats(&sort_numbers(&bits(&many))), expected);
}

#[test]
fn the_first_cheapest_cut_is_taken() {
    assert_eq!(find_best_cut(10, 12, &bits(&[3.0, 1.0, 1.0])), 12);
    assert_eq!(find_best_cut(10, 99, &bits(&[1.0, 1.0])), 11);
    assert_eq!(find_best_cut(10, 99, &bits(&[f32::INFINITY, f32::NAN])), 99);
    assert_eq!(find_best_cut(10, 99, &[]), 99);
}

#[test]
fn cuts_start_evenly_and_move() {
    let mut b = Boundaries::new(3, 10);
    assert_eq!(b.bounds, vec![0, 3, 6, 10]);
    assert!(b.can_advance());
    assert_eq!(b.neighbors(1), (0, 6));
    assert_eq!(b.runs(), vec![(0, 3), (3, 6), (6, 10)]);
    // Between 0 and 6 the cut behind the first number is cheapest, between 3 and 10 the last.
    let first = bits(&[1.0, 2.0, 3.0, 4.0, 5.0]);
    let second = bits(&[9.0, 8.0, 7.0, 6.0, 5.0, 4.0]);
    assert!(!b.advance(&[first.clone(), second.clone()]));
    assert_eq!(b.bounds, vec![0, 1, 9, 10]);
    let mut c = Boundaries { bounds: vec![0, 5, 3, 4, 10] };
    assert!(c.can_advance() == false);
    c.bounds = vec![0, 2, 4];
    assert!(c.advance(&[bits(&[2.0, 1.0, 2.0])]));
}

fn cost(a: &[f32]) -> f32 {
    if a.is_empty() {
        return 0.0;
    }
    let mean = a.iter().sum::<f32>() / a.len() as f32;
    a.iter().map(|x| (x - mean) * (x - mean)).sum()
}

fn cut_cost(sorted: &Vec<u32>, left: usize, j: usize, right: usize) -> u32 {
    let a = floats(sorted);
    (cost(&a[left..j]) + cost(&a[j..right])).to_bits()
}

fn run_mean(sorted: &Vec<u32>, left: usize, right: usize) -> u32 {
    (floats(&sorted[left..right]).iter().sum::<f32>() / (right - left) as f32).to_bits()
}

/// Groups numbers, with costs and means computed in single precision.
fn group(c: usize, a: &[f32]) -> Vec<f32> {
    floats(&kmeans1d(c, &bits(a), cut_cost, run_mean).unwrap())
}

#[test]
fn sample_0() {
    let clusters = group(
        4,
        &[
            -50.0, 4.0, 4.1, 4.2, 200.2, 200.4, 200.9, 80.0, 100.0, 102.0,
        ],
    );
    assert_eq!(clusters.len(), 4);
}

#[test]
fn the_order_of_numbers_does_not_matter() {
    let a = [3.5f32, -1.0, 80.0, 0.25, 3.5, -7.0, 80.5, 4.0];
    let mut b = a;
    for turn in 0..a.len() {
        b.rotate_left(1);
        b.swap(turn, (turn * 3 + 1) % a.len());
        assert_eq!(sort_numbers(&bits(&b)), sort_numbers(&bits(&a)));
        for c in 1..a.len() {
            assert_eq!(group(c, &b), group(c, &a));
            assert!(group(c, &b).iter().all(|x| -7.0 <= *x && *x <= 80.5));
        }
    }
    assert_eq!(group(2, &[0.0, -0.0, 5.0]), group(2, &[5.0, -0.0, 0.0]));
}

#[test]
fn runs_settle_around_groups() {
    let clusters = group(3, &[1.0, 100.0, 2.0, 50.0, 51.0, 101.0, 3.0, 52.0, 102.0]);
    assert_eq!(clusters, vec![2.0, 51.0, 101.0]);
    assert_eq!(group(1, &[1.0, 2.0, 6.0]), vec![3.0]);
    // One round in this example moves both cuts.
    assert_eq!(group(3, &[0.0, 10.0, 10.5, 11.0, 11.5, 30.0]), vec![0.0, 10.75, 30.0]);
}

#[test]
fn costs_that_are_no_numbers_leave_cuts_alone() {
    let nan = |_: &Vec<u32>, _: usize, _: usize, _: usize| f32::NAN.to_bits();
    let numbers: Vec<u32> = (1..10).map(|i| (i as f32).to_bits()).collect();
    assert_eq!(settle_cuts(3, &numbers, &nan).unwrap().bounds, vec![0, 3, 6, 9]);
    let groups = kmeans1d(3, &numbers, nan, run_mean).unwrap();
    assert_eq!(floats(&groups), vec![2.0, 5.0, 8.0]);
}

#[test]
fn cuts_out_of_order_give_nothing() {
    // In the first round each cut jumps far; in the second only one of them can be moved.
    let round = std::cell::Cell::new(0usize);
    let numbers: Vec<u32> = (0..40).map(|i| (i as f32).to_bits()).collect();
    let costs = |_: &Vec<u32>, left: usize, j: usize, right: usize| {
        round.set(round.get() + 1);
        let cost = match (left, right) {
            (0, 20) => (19 - j) as f32,
            (10, 30) => (j - 11) as f32,
            (20, 40) => (j - 21) as f32,
            (19, 21) => f32::NAN,
            (0, 11) => f32::NAN,
            (11, 40) => (j - 12) as f32,
            _ => 1.0,
        };
        cost.to_bits()
    };
    assert!(settle_cuts(4, &numbers, &costs).is_none());
    assert!(round.get() > 0);
    assert!(kmeans1d(4, &numbers, costs, run_mean).is_none());
}

#[test]
fn weights_are_the_smallest_distances() {
    let mut w = bits(&[f32::INFINITY, f32::INFINITY, f32::INFINITY]);
    lower_weights(&mut w, &bits(&[3.0, 4.0, f32::NAN]));
    assert_eq!(w, bits(&[3.0, 4.0, f32::INFINITY]));
    lower_weights(&mut w, &bits(&[5.0, 1.0, 2.0]));
    assert_eq!(w, bits(&[3.0, 1.0, 2.0]));
}

#[test]
fn a_choice_falls_where_it_is_spent() {
    assert_eq!(weighted_index(&bits(&[3.0, -0.5, -1.0])), 1);
    assert_eq!(weighted_index(&bits(&[3.0, 1.0])), 2);
    assert_eq!(weighted_index(&bits(&[-0.0, -1.0])), 1);
    assert_eq!(weighted_index(&[]), 0);
}

#[test]
fn empty_clusters_are_filled_in_their_order() {
    let mut refill = Refill { counts: bits(&[3.0, 0.0, 5.0, -0.0]) };
    let mut action = refill.start();
    assert_eq!(action, RefillAction::Draw { cluster: 1, donor: 0 });
    let draws = [(0.9f32, 0.5f32), (0.1, -0.25), (0.3, 1.0), (0.2, 0.5)];
    let mut splits = Vec::new();
    let mut at = 0;
    while action != RefillAction::Done {
        let event = match action {
            RefillAction::Draw { .. } => {
                at += 1;
                let (random, share) = draws[at - 1];
                RefillEvent::Drawn { random: random.to_bits(), share: share.to_bits() }
            }
            RefillAction::Split { cluster, donor } => {
                splits.push((cluster, donor));
                let half = f32::from_bits(refill.counts[donor]) / 2.0;
                RefillEvent::Halved { given: half.to_bits(), left: half.to_bits() }
            }
            RefillAction::Done => unreachable!(),
        };
        action = refill.next(action, event);
    }
    assert_eq!(splits, vec![(1, 2), (3, 0)]);
    assert_eq!(floats(&refill.counts), vec![1.5, 2.5, 2.5, 1.5]);
    // Another answer than the one that was asked for changes nothing.
    let mut refill = Refill { counts: bits(&[0.0]) };
    let action = refill.start();
    let halved = RefillEvent::Halved { given: 0, left: 0 };
    assert_eq!(refill.next(action, halved), action);
    assert_eq!(Refill { counts: bits(&[1.0, f32::NAN]) }.start(), RefillAction::Done);
}

#[test]
fn donors_are_tried_in_turn() {
    let half = 0.5f32.to_bits();
    assert_eq!(donor_step(1, 3, 0.4f32.to_bits(), half), DonorStep::Found { cluster: 1 });
    assert_eq!(donor_step(1, 3, half, half), DonorStep::Try { cluster: 2 });
    assert_eq!(donor_step(2, 3, half, half), DonorStep::Try { cluster: 0 });
    assert_eq!(donor_step(0, 1, half, (-0.1f32).to_bits()), DonorStep::Try { cluster: 0 });
}

#[test]
fn samples_are_assigned_to_the_nearest() {
    let d = vec![bits(&[1.0, 0.5]), bits(&[0.1, 0.5]), bits(&[2.0, 2.0])];
    assert_eq!(assign_each(&d, 2), vec![1, 0, 1]);
    let samples = vec![vec![1], vec![2], vec![3]];
    assert_eq!(centers_at(&samples, &[2, 0]), vec![vec![3], vec![1]]);
}

#[test]
fn random_centers_are_different_samples() {
    let samples: Vec<Vec<u32>> = (0..50).map(|i| vec![i, i + 1]).collect();
    for seed in 0..20 {
        let mut rng = StdRng::seed_from_u64(seed);
        let k = LloydKMeans::new(50, samples.clone(), false, false, &mut rng);
        assert_eq!(k.dims, 2);
        let mut centers: Vec<u32> = k.centroids.iter().map(|c| c[0]).collect();
        assert_ne!(centers, (0..50).collect::<Vec<_>>());
        centers.sort();
        assert_eq!(centers, (0..50).collect::<Vec<_>>());
        assert!(!k.needs_center());
        let few = LloydKMeans::new(7, samples.clone(), false, false, &mut rng);
        assert_eq!(few.centroids.len(), 7);
    }
}

#[test]
fn the_first_of_spread_centers_is_random() {
    let samples: Vec<Vec<u32>> = (0..50).map(|i| vec![i, i + 1]).collect();
    let mut seen = vec![false; 50];
    for seed in 0..100 {
        let mut rng = StdRng::seed_from_u64(seed);
        let k = LloydKMeans::new(5, samples.clone(), true, true, &mut rng);
        assert_eq!(k.centroids.len(), 1);
        assert!(k.needs_center() && k.is_spherical);
        seen[k.centroids[0][0] as usize] = true;
    }
    assert!(seen.iter().filter(|s| **s).count() > 20);
}

fn distance(a: &[u32], b: &[u32]) -> f32 {
    floats(a).iter().zip(floats(b)).map(|(x, y)| (x - y) * (x - y)).sum()
}

#[test]
fn centers_are_spread_out_and_refined() {
    // Three far groups of points on a plane.
    let mut samples = Vec::new();
    for (x, y) in [(0.0f32, 0.0f32), (100.0, 0.0), (0.0, 100.0)] {
        for i in 0..5 {
            samples.push(bits(&[x + i as f32 * 0.5, y + 1.0]));
        }
    }
    let mut rng = StdRng::seed_from_u64(1);
    let mut k = LloydKMeans::new(3, samples.clone(), false, true, &mut rng);
    let distances_to = |samples: &Vec<Vec<u32>>, center: &Vec<u32>| {
        samples.iter().map(|s| distance(s, center).to_bits()).collect::<Vec<u32>>()
    };
    let spend = |weight: &Vec<u32>| {
        // Half of all weights is spent.
        let w = floats(weight);
        let mut choice = w.iter().sum::<f32>() * 0.5;
        w[..w.len() - 1]
            .iter()
            .map(|x| {
                choice -= x;
                choice.to_bits()
            })
            .collect::<Vec<u32>>()
    };
    k.choose_centers(&distances_to, &spend);
    assert_eq!(k.centroids.len(), 3);
    assert!(k.centroids.iter().all(|c| samples.contains(c)));
    let measure = |samples: &Vec<Vec<u32>>, centroids: &Vec<Vec<u32>>| {
        samples
            .iter()
            .map(|s| centroids.iter().map(|c| distance(s, c).to_bits()).collect::<Vec<u32>>())
            .collect::<Vec<Vec<u32>>>()
    };
    let refined = |k: &LloydKMeans| {
        (0..k.c)
            .map(|c| {
                let own: Vec<Vec<f32>> = (0..k.samples.len())
                    .filter(|i| k.assign[*i] == c)
                    .map(|i| floats(&k.samples[i]))
                    .collect();
                let n = own.len() as f32;
                bits(&[
                    own.iter().map(|v| v[0]).sum::<f32>() / n,
                    own.iter().map(|v| v[1]).sum::<f32>() / n,
                ])
            })
            .collect::<Vec<Vec<u32>>>()
    };
    k.assign_samples(&measure);
    assert_eq!(k.assign.len(), 15);
    let rounds = k.refine(100, &refined, &measure);
    assert!(0 < rounds && rounds < 100);
    let mut centers: Vec<Vec<f32>> = k.finish().iter().map(|c| floats(c)).collect();
    centers.sort_by(|a, b| a.partial_cmp(b).unwrap());
    assert_eq!(centers, vec![vec![1.0, 1.0], vec![1.0, 101.0], vec![101.0, 1.0]]);
    // The same in one go.
    let mut rng = StdRng::seed_from_u64(2);
    let all = find_centroids(
        3, samples, false, 100, true, &mut rng, distances_to, spend, refined, measure,
    );
    let mut again: Vec<Vec<f32>> = all.iter().map(|c| floats(c)).collect();
    again.sort_by(|a, b| a.partial_cmp(b).unwrap());
    assert_eq!(again, centers);
}

#[test]
fn refinement_makes_no_more_rounds_than_allowed() {
    let samples = vec![vec![1], vec![2], vec![3]];
    let mut rng = StdRng::seed_from_u64(1);
    let mut k = LloydKMeans::new(2, samples, false, false, &mut rng);
    let flip = std::cell::Cell::new(false);
    // Every round turns all samples over to the other centroid.
    let measure = |samples: &Vec<Vec<u32>>, _: &Vec<Vec<u32>>| {
        flip.set(!flip.get());
        let row = if flip.get() { vec![0, 1] } else { vec![1, 0] };
        vec![row; samples.len()]
    };
    let same = |k: &LloydKMeans| k.centroids.iter().cloned().collect::<Vec<Vec<u32>>>();
    k.assign_samples(&measure);
    assert_eq!(k.refine(7, &same, &measure), 7);
    assert_eq!(k.refine(0, &same, &measure), 0);
    let before = k.assign.clone();
    assert!(!k.iterate(&same, &measure));
    assert_ne!(k.assign, before);
    let still = |samples: &Vec<Vec<u32>>, _: &Vec<Vec<u32>>| vec![vec![0, 1]; samples.len()];
    assert_eq!(k.refine(7, &same, &still) <= 2, true);
    assert!(k.end_round(vec![vec![5], vec![6]], &[vec![0, 1], vec![0, 1], vec![0, 1]]));
    assert_eq!(k.finish(), vec![vec![5], vec![6]]);
}
