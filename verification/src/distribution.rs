//! How queue space and workers are divided among the clusters.
use crate::accuracy::{law_conversion_is_close, law_over_is_close, law_plus_is_close, law_rounding_is_exact, law_share_is_close, law_times_is_close, lemma_at_most_unscaled, lemma_ordered_products, lemma_real_product, value};
use crate::binary64::{from_int, over, plus, saturated, times, zero, Binary64};
use crate::double_order::{law_conversion_is_monotone, law_over_is_monotone, law_plus_is_monotone, law_results_are_normalized, law_rounding_is_monotone, law_times_is_monotone};
use crate::sums::{lemma_prefix_sum_bounded, lemma_prefix_sum_step, lemma_term_bounded, lemma_zeros_sum, sum};
use vstd::math::{max, min};
use vstd::prelude::*;
use vstd::relations::total_ordering;
use vstd::seq_lib::{group_to_multiset_ensures, lemma_sorted_unique};

verus! {

/// Statistics for a single cluster. A component of a vector is the bit pattern of a
/// single-precision number.
#[derive(Debug)]
pub struct ClusterStats {
    pub cluster_id: usize,
    pub count: usize,
    pub sample_vectors: Vec<Vec<u32>>,
}

/// The counts alone.
pub open spec fn counts(stats: Seq<ClusterStats>) -> Seq<usize> {
    Seq::new(stats.len(), |i: int| stats[i].count)
}

impl ClusterStats {
    pub fn new() -> (r: ClusterStats)
        ensures
            r.cluster_id == 0,
            r.count == 0,
            r.sample_vectors@.len() == 0,
    {
        ClusterStats { cluster_id: 0, count: 0, sample_vectors: Vec::new() }
    }

    pub fn with_count(cluster_id: usize, count: usize) -> (r: ClusterStats)
        ensures
            r.cluster_id == cluster_id,
            r.count == count,
            r.sample_vectors@.len() == 0,
    {
        ClusterStats { cluster_id, count, sample_vectors: Vec::new() }
    }

    /// Counts a vector, and keeps a copy of it while fewer than `max_samples` are kept.
    pub fn add_vector(&mut self, vector: &[u32], max_samples: usize)
        requires
            old(self).count < usize::MAX,
        ensures
            final(self).cluster_id == old(self).cluster_id,
            final(self).count == old(self).count + 1,
            if old(self).sample_vectors@.len() < max_samples {
                &&& final(self).sample_vectors@.len() == old(self).sample_vectors@.len() + 1
                &&& final(self).sample_vectors@.drop_last() == old(self).sample_vectors@
                &&& final(self).sample_vectors@.last()@ == vector@
            } else {
                final(self).sample_vectors@ == old(self).sample_vectors@
            },
    {
        self.count = self.count + 1;
        if self.sample_vectors.len() < max_samples {
            let mut copy: Vec<u32> = Vec::new();
            copy.extend_from_slice(vector);
            assert(copy@ =~= vector@);
            let ghost before = self.sample_vectors@;
            self.sample_vectors.push(copy);
            assert(self.sample_vectors@.drop_last() =~= before);
        }
    }
}

/// The capacity of the queue of a cluster: it grows with the cluster's share of all vectors,
/// from `base` to at most ten times `base`. The share is taken in doubles.
pub open spec fn queue_capacity(count: int, total: int, base: int) -> int {
    if total == 0 {
        base
    } else {
        let ratio = over(from_int(count), from_int(total));
        let factor = plus(from_int(1), times(ratio, from_int(5)));
        min(max(saturated(times(from_int(base), factor).floor()), base), 10 * base)
    }
}

/// Calculate queue capacity for each cluster based on its size
pub fn calculate_queue_capacities(
    cluster_stats: &[ClusterStats],
    total_vectors: usize,
    base_capacity: usize,
) -> (r: Vec<usize>)
    requires
        10 * base_capacity <= usize::MAX,
    ensures
        r@.len() == cluster_stats@.len(),
        forall|i: int|
            0 <= i < r@.len() ==> #[trigger] r@[i] == queue_capacity(
                cluster_stats@[i].count as int,
                total_vectors as int,
                base_capacity as int,
            ),
{
    let max_capacity: usize = base_capacity * 10;
    let mut r: Vec<usize> = Vec::new();
    for i in 0..cluster_stats.len()
        invariant
            max_capacity == 10 * base_capacity,
            r@.len() == i,
            forall|k: int|
                0 <= k < i ==> #[trigger] r@[k] == queue_capacity(
                    cluster_stats@[k].count as int,
                    total_vectors as int,
                    base_capacity as int,
                ),
    {
        if total_vectors == 0 {
            r.push(base_capacity);
        } else {
            let ratio = Binary64::from_usize(cluster_stats[i].count).over(
                Binary64::from_usize(total_vectors),
            );
            let factor = Binary64::from_usize(1).plus(ratio.times(Binary64::from_usize(5)));
            let capacity: usize = Binary64::from_usize(base_capacity).times(
                factor,
            ).floor_to_usize();
            r.push(
                if capacity < base_capacity {
                    base_capacity
                } else if capacity > max_capacity {
                    max_capacity
                } else {
                    capacity
                },
            );
        }
    }
    r
}

/// Every queue has at least the base capacity and at most ten times that.
pub proof fn law_queue_capacity_bounds(count: int, total: int, base: int)
    requires
        0 <= base,
    ensures
        base <= queue_capacity(count, total, base) <= 10 * base,
{
}

/// The capacity of a queue is `base * (1 + 5 * count / total)`, cut to a whole number, up to the
/// rounding of doubles: a cluster with all vectors has six times the base capacity. Where that is
/// more than ten times the base capacity, it is ten times the base capacity.
pub proof fn law_queue_grows_with_the_share(count: int, total: int, base: int)
    requires
        0 <= count < 0x20_0000_0000_0000,
        0 < total < 0x20_0000_0000_0000,
        0 <= base < 0x100_0000_0000,
        10 * base <= usize::MAX,
    ensures
        5 * count <= 9 * total ==> -65 * total <= 64 * (queue_capacity(count, total, base) * total
            - base * (total + 5 * count)) <= total,
        5 * count > 9 * total ==> 10 * base - 1 <= queue_capacity(count, total, base) <= 10 * base,
{
    let (b, c, t) = (from_int(base), from_int(count), from_int(total));
    law_conversion_is_close(base);
    law_conversion_is_close(count);
    law_conversion_is_close(total);
    law_conversion_is_close(5);
    law_conversion_is_close(1);
    law_conversion_is_monotone(count, count);
    law_conversion_is_monotone(total, total);
    law_conversion_is_monotone(1, 5);
    law_conversion_is_monotone(base, base);
    let ratio = over(c, t);
    law_results_are_normalized(c, t);
    law_over_is_close(c, t, -1, 0);
    let grown = times(ratio, from_int(5));
    law_results_are_normalized(ratio, from_int(5));
    law_times_is_close(ratio, from_int(5), -1, 0);
    let factor = plus(from_int(1), grown);
    law_results_are_normalized(from_int(1), grown);
    law_plus_is_close(from_int(1), grown);
    let x = times(b, factor);
    law_results_are_normalized(b, factor);
    law_times_is_close(b, factor, -1, 0);
    law_rounding_is_exact(x);
    let (br, cr, tr) = (base as real, count as real, total as real);
    let e = cr / tr;
    assert(0real <= e && e * tr == cr) by (nonlinear_arith)
        requires
            e == cr / tr,
            0real <= cr,
            tr > 0real,
    ;
    let (r, g, f, v) = (value(ratio), value(grown), value(factor), value(x));
    assert(r * 5real == 5real * r) by (nonlinear_arith);
    let ideal = 1real + 5real * e;
    // Each rounding adds one unit to the relative error.
    assert(1125899906842624real * (f - ideal) <= ideal);
    assert(1125899906842624real * (ideal - f) <= ideal);
    let exact = br * ideal;
    lemma_ordered_products(1125899906842624real * (f - ideal), ideal, br);
    lemma_ordered_products(1125899906842624real * (ideal - f), ideal, br);
    assert(br * (1125899906842624real * (f - ideal)) == 1125899906842624real * (br * f - exact))
        by (nonlinear_arith)
        requires
            exact == br * ideal,
    ;
    assert(br * (1125899906842624real * (ideal - f)) == 1125899906842624real * (exact - br * f))
        by (nonlinear_arith)
        requires
            exact == br * ideal,
    ;
    lemma_ordered_products(1real, ideal, br);
    assert(br * 1real == br && br * 10real == 10real * br) by (nonlinear_arith);
    let floor = x.floor();
    let capacity = queue_capacity(count, total, base);
    let k = capacity as real;
    if 5 * count <= 9 * total {
        assert(e * tr <= (9real / 5real) * tr);
        lemma_at_most_unscaled(e, 9real / 5real, tr);
        lemma_ordered_products(ideal, 10real, br);
        assert(br <= exact <= 10real * br);
        assert(64real * (v - exact) <= 1real && 64real * (exact - v) <= 1real);
        assert(64real * (k - exact) <= 1real);
        assert(-65real <= 64real * (k - exact));
        lemma_ordered_products(64real * (k - exact), 1real, tr);
        lemma_ordered_products(-65real, 64real * (k - exact), tr);
        lemma_real_product(capacity, total);
        lemma_real_product(base, total + 5 * count);
        assert(exact * tr == br * (tr + 5real * cr)) by (nonlinear_arith)
            requires
                exact == br * ideal,
                ideal == 1real + 5real * e,
                e * tr == cr,
        ;
        assert((64real * (k - exact)) * tr == 64real * (k * tr - exact * tr)) by (nonlinear_arith);
    } else {
        assert((9real / 5real) * tr <= e * tr);
        lemma_at_most_unscaled(9real / 5real, e, tr);
        lemma_ordered_products(10real, ideal, br);
        assert(10real * br <= exact);
        assert(10real * br - 1real <= v);
        assert(10 * base - 2 < floor);
    }
}

/// Of two clusters the larger has no smaller queue.
pub proof fn law_larger_cluster_has_no_smaller_queue(
    smaller: int,
    larger: int,
    total: int,
    base: int,
)
    requires
        0 <= smaller <= larger,
        0 <= total,
        0 <= base,
    ensures
        queue_capacity(smaller, total, base) <= queue_capacity(larger, total, base),
{
    if total > 0 {
        let (all, one, five, unit) = (from_int(total), from_int(1), from_int(5), from_int(base));
        law_conversion_is_monotone(smaller, larger);
        law_conversion_is_monotone(total, total);
        law_conversion_is_monotone(1, 5);
        law_conversion_is_monotone(base, base);
        let (a, b) = (over(from_int(smaller), all), over(from_int(larger), all));
        law_over_is_monotone(from_int(smaller), from_int(larger), all);
        law_results_are_normalized(from_int(smaller), all);
        law_results_are_normalized(from_int(larger), all);
        let (c, d) = (times(a, five), times(b, five));
        law_times_is_monotone(a, b, five);
        law_results_are_normalized(a, five);
        law_results_are_normalized(b, five);
        let (f, g) = (plus(one, c), plus(one, d));
        law_plus_is_monotone(one, c, d);
        law_results_are_normalized(one, c);
        law_results_are_normalized(one, d);
        law_times_is_monotone(f, g, unit);
        law_results_are_normalized(unit, f);
        law_results_are_normalized(unit, g);
        law_rounding_is_monotone(times(unit, f), times(unit, g));
    }
}

/// Larger clusters first; among equals, the one with the smaller number.
pub open spec fn larger_first(a: (usize, usize), b: (usize, usize)) -> bool {
    a.1 > b.1 || (a.1 == b.1 && a.0 <= b.0)
}

/// The clusters with their sizes, in the order of their numbers.
pub open spec fn numbered(counts: Seq<usize>) -> Seq<(usize, usize)> {
    Seq::new(counts.len(), |i: int| (i as usize, counts[i]))
}

/// The clusters with their sizes, larger ones first.
pub open spec fn ranked(counts: Seq<usize>) -> Seq<(usize, usize)> {
    numbered(counts).sort_by(|a: (usize, usize), b: (usize, usize)| larger_first(a, b))
}

proof fn lemma_larger_first_is_total()
    ensures
        total_ordering(|a: (usize, usize), b: (usize, usize)| larger_first(a, b)),
{
}

/// The ranking holds exactly the clusters, each before those that are smaller and before
/// equal ones with larger numbers; no other sequence does.
pub proof fn law_ranking(counts: Seq<usize>, other: Seq<(usize, usize)>)
    ensures
        ranked(counts).to_multiset() == numbered(counts).to_multiset(),
        ranked(counts).len() == counts.len(),
        forall|i: int, j: int|
            0 <= i < j < counts.len() ==> larger_first(
                #[trigger] ranked(counts)[i],
                #[trigger] ranked(counts)[j],
            ),
        other.to_multiset() == numbered(counts).to_multiset() && (forall|i: int, j: int|
            0 <= i < j < other.len() ==> larger_first(#[trigger] other[i], #[trigger] other[j]))
            ==> other == ranked(counts),
{
    broadcast use group_to_multiset_ensures;

    let leq = |a: (usize, usize), b: (usize, usize)| larger_first(a, b);
    lemma_larger_first_is_total();
    numbered(counts).lemma_sort_by_ensures(leq);
    assert(numbered(counts).to_multiset().len() == ranked(counts).to_multiset().len());
    assert forall|i: int, j: int| 0 <= i < j < counts.len() implies larger_first(
        #[trigger] ranked(counts)[i],
        #[trigger] ranked(counts)[j],
    ) by {
        assert(leq(ranked(counts)[i], ranked(counts)[j]));
    }
    if other.to_multiset() == numbered(counts).to_multiset() && (forall|i: int, j: int|
        0 <= i < j < other.len() ==> larger_first(#[trigger] other[i], #[trigger] other[j])) {
        lemma_sorted_unique(other, ranked(counts), leq);
    }
}

/// Each entry of the ranking is a cluster with its size, and each cluster has one place.
pub proof fn lemma_ranked_entries(counts: Seq<usize>)
    requires
        counts.len() <= usize::MAX,
    ensures
        ranked(counts).len() == counts.len(),
        forall|j: int|
            0 <= j < counts.len() ==> {
                &&& (#[trigger] ranked(counts)[j]).0 < counts.len()
                &&& ranked(counts)[j].1 == counts[ranked(counts)[j].0 as int]
            },
{
    broadcast use group_to_multiset_ensures;

    law_ranking(counts, ranked(counts));
    let all = numbered(counts);
    assert forall|j: int| 0 <= j < counts.len() implies {
        &&& (#[trigger] ranked(counts)[j]).0 < counts.len()
        &&& ranked(counts)[j].1 == counts[ranked(counts)[j].0 as int]
    } by {
        let e = ranked(counts)[j];
        assert(ranked(counts).contains(e));
        assert(ranked(counts).to_multiset().count(e) > 0);
        assert(all.contains(e));
        let i = choose|i: int| 0 <= i < all.len() && all[i] == e;
        assert(all[i] == (i as usize, counts[i]));
    }
}

/// Sorts the clusters by size.
fn rank(sizes: &Vec<usize>) -> (r: Vec<(usize, usize)>)
    ensures
        r@ == ranked(sizes@),
{
    broadcast use group_to_multiset_ensures;

    let mut r: Vec<(usize, usize)> = Vec::new();
    assert(numbered(sizes@).take(0) =~= r@);
    for i in 0..sizes.len()
        invariant
            r@.len() == i,
            r@.to_multiset() == numbered(sizes@).take(i as int).to_multiset(),
            forall|a: int, b: int|
                0 <= a < b < i ==> larger_first(#[trigger] r@[a], #[trigger] r@[b]),
            forall|a: int| 0 <= a < i ==> (#[trigger] r@[a]).0 < i,
    {
        broadcast use group_to_multiset_ensures;

        let count: usize = sizes[i];
        let mut p: usize = i;
        while p > 0 && r[p - 1].1 < count
            invariant
                0 <= p <= i,
                r@.len() == i,
                forall|a: int| p <= a < i ==> (#[trigger] r@[a]).1 < count,
            decreases p,
        {
            p = p - 1;
        }
        let ghost before = r@;
        r.insert(p, (i, count));
        proof {
            let all = numbered(sizes@);
            assert(all.take(i + 1) =~= all.take(i as int).push(all[i as int]));
            assert forall|a: int, b: int| 0 <= a < b < i + 1 implies larger_first(
                #[trigger] r@[a],
                #[trigger] r@[b],
            ) by {
                if b < p {
                    assert(r@[a] == before[a] && r@[b] == before[b]);
                } else if b == p {
                    assert(r@[a] == before[a]);
                    if a < p - 1 {
                        assert(larger_first(before[a], before[p - 1]));
                    }
                } else if a == p {
                    assert(r@[b] == before[b - 1]);
                } else if a < p {
                    assert(r@[a] == before[a] && r@[b] == before[b - 1]);
                } else {
                    assert(r@[a] == before[a - 1] && r@[b] == before[b - 1]);
                }
            }
            assert forall|a: int| 0 <= a < i + 1 implies (#[trigger] r@[a]).0 < i + 1 by {
                if a < p {
                    assert(r@[a] == before[a]);
                } else if a > p {
                    assert(r@[a] == before[a - 1]);
                }
            }
        }
    }
    proof {
        assert(numbered(sizes@).take(sizes@.len() as int) =~= numbered(sizes@));
        law_ranking(sizes@, r@);
    }
    r
}

/// The workers from one number up to, not including, another.
pub open spec fn ids(from: int, to: int) -> Seq<usize> {
    Seq::new(max(to - from, 0) as nat, |k: int| (from + k) as usize)
}

/// A cluster gets more workers.
pub open spec fn given(lists: Seq<Seq<usize>>, cluster: int, from: int, to: int) -> Seq<
    Seq<usize>,
> {
    lists.update(cluster, lists[cluster] + ids(from, to))
}

/// One worker for each cluster, as far as they reach.
pub open spec fn one_each(num_clusters: int, total_workers: int) -> Seq<Seq<usize>> {
    Seq::new(
        num_clusters as nat,
        |c: int|
            if c < total_workers {
                seq![c as usize]
            } else {
                Seq::empty()
            },
    )
}

pub open spec fn sum_int(s: Seq<int>) -> int
    decreases s.len(),
{
    if s.len() == 0 {
        0
    } else {
        sum_int(s.drop_last()) + s.last()
    }
}

/// How many of the remaining workers a cluster's share of the vectors calls for, rounded.
/// The share is taken in doubles.
pub open spec fn extra_share(count: int, remaining: int, total: int) -> int {
    saturated(times(from_int(remaining), over(from_int(count), from_int(total))).round())
}

/// Of two clusters the larger calls for no fewer of the remaining workers.
pub proof fn law_larger_cluster_has_no_smaller_share(
    smaller: int,
    larger: int,
    remaining: int,
    total: int,
)
    requires
        0 <= smaller <= larger,
        0 <= remaining,
        0 < total,
    ensures
        extra_share(smaller, remaining, total) <= extra_share(larger, remaining, total),
{
    let (all, left) = (from_int(total), from_int(remaining));
    law_conversion_is_monotone(smaller, larger);
    law_conversion_is_monotone(total, total);
    law_conversion_is_monotone(remaining, remaining);
    let (a, b) = (over(from_int(smaller), all), over(from_int(larger), all));
    law_over_is_monotone(from_int(smaller), from_int(larger), all);
    law_results_are_normalized(from_int(smaller), all);
    law_results_are_normalized(from_int(larger), all);
    law_times_is_monotone(a, b, left);
    law_results_are_normalized(left, a);
    law_results_are_normalized(left, b);
    law_rounding_is_monotone(times(left, a), times(left, b));
}

/// The shares of the clusters, in the order of the ranking.
pub open spec fn extra_shares(counts: Seq<usize>, remaining: int) -> Seq<int> {
    Seq::new(
        counts.len(),
        |j: int| extra_share(ranked(counts)[j].1 as int, remaining, sum(counts)),
    )
}

/// How many entries from place `i` on are positive.
pub open spec fn positives_from(s: Seq<int>, i: int) -> int
    decreases s.len() - i,
{
    if i >= s.len() {
        0
    } else {
        positives_from(s, i + 1) + if s[i] > 0 {
            1int
        } else {
            0int
        }
    }
}

/// One less for the smallest clusters that have any, until `excess` workers are saved.
pub open spec fn lowered(s: Seq<int>, excess: int) -> Seq<int> {
    Seq::new(
        s.len(),
        |i: int|
            if s[i] > 0 && positives_from(s, i + 1) < excess {
                s[i] - 1
            } else {
                s[i]
            },
    )
}

/// One more for the largest clusters, until `shortfall` workers are placed.
pub open spec fn raised(s: Seq<int>, shortfall: int) -> Seq<int> {
    Seq::new(
        s.len(),
        |i: int|
            if i < shortfall {
                s[i] + 1
            } else {
                s[i]
            },
    )
}

/// The shares, brought nearer to the number of workers that remain.
pub open spec fn adjusted(s: Seq<int>, remaining: int) -> Seq<int> {
    let all = sum_int(s);
    if all > remaining {
        lowered(s, all - remaining)
    } else {
        raised(s, remaining - all)
    }
}

/// The first worker that is left after the first `j` clusters of the ranking got theirs.
pub open spec fn next_worker(extras: Seq<int>, num_clusters: int, total_workers: int, j: int) -> int {
    min(num_clusters + sum_int(extras.take(j)), total_workers)
}

/// The first `j` clusters of the ranking get their extra workers.
pub open spec fn proportional(
    lists: Seq<Seq<usize>>,
    order: Seq<(usize, usize)>,
    extras: Seq<int>,
    total_workers: int,
    j: int,
) -> Seq<Seq<usize>>
    decreases j,
{
    if j <= 0 {
        lists
    } else {
        let n = lists.len() as int;
        given(
            proportional(lists, order, extras, total_workers, j - 1),
            order[j - 1].0 as int,
            next_worker(extras, n, total_workers, j - 1),
            next_worker(extras, n, total_workers, j),
        )
    }
}

/// The cluster with the most vectors; among equals, the last.
pub open spec fn largest(counts: Seq<usize>) -> int
    decreases counts.len(),
{
    if counts.len() <= 1 {
        0
    } else {
        let before = largest(counts.drop_last());
        if counts.last() >= counts[before] {
            counts.len() - 1
        } else {
            before
        }
    }
}

/// The workers of each cluster. Every cluster gets one, as far as they reach. Of those that
/// remain each cluster gets its share, and the largest gets what is then left.
pub open spec fn distribution(counts: Seq<usize>, total_workers: int) -> Seq<Seq<usize>> {
    let n = counts.len() as int;
    let first = one_each(n, total_workers);
    if n >= total_workers {
        first
    } else if sum(counts) == 0 {
        given(first, largest(counts), n, total_workers)
    } else {
        let extras = adjusted(extra_shares(counts, total_workers - n), total_workers - n);
        given(
            proportional(first, ranked(counts), extras, total_workers, n),
            largest(counts),
            next_worker(extras, n, total_workers, n),
            total_workers,
        )
    }
}

/// The lists without their storage.
pub open spec fn lists(v: Seq<Vec<usize>>) -> Seq<Seq<usize>> {
    Seq::new(v.len(), |i: int| v[i]@)
}

/// Appends the workers `from..to` to the list of a cluster.
fn give(v: &mut Vec<Vec<usize>>, cluster: usize, from: usize, to: usize)
    requires
        cluster < old(v)@.len(),
    ensures
        lists(final(v)@) == given(lists(old(v)@), cluster as int, from as int, to as int),
        final(v)@.len() == old(v)@.len(),
{
    let ghost before = lists(v@);
    let mut next: usize = from;
    assert(lists(v@) =~= given(before, cluster as int, from as int, from as int));
    while next < to
        invariant
            cluster < v@.len(),
            v@.len() == before.len(),
            from <= next,
            from < to ==> next <= to,
            from >= to ==> next == from,
            lists(v@) == given(before, cluster as int, from as int, next as int),
        decreases to - next,
    {
        let ghost step = lists(v@);
        v[cluster].push(next);
        next = next + 1;
        assert(ids(from as int, next as int) =~= ids(from as int, next - 1).push(
            (next - 1) as usize,
        ));
        assert(step[cluster as int] == before[cluster as int] + ids(from as int, next - 1));
        assert(v@[cluster as int]@ == step[cluster as int].push((next - 1) as usize));
        assert(lists(v@)[cluster as int] =~= before[cluster as int] + ids(
            from as int,
            next as int,
        ));
        assert forall|i: int| 0 <= i < before.len() && i != cluster implies #[trigger] lists(
            v@,
        )[i] == before[i] by {
            assert(step[i] == before[i]);
        }
        assert(lists(v@) =~= given(before, cluster as int, from as int, next as int));
    }
    assert(ids(from as int, to as int) =~= ids(from as int, next as int));
}

proof fn lemma_sum_int_step(s: Seq<int>, i: int)
    requires
        0 <= i < s.len(),
    ensures
        sum_int(s.take(i + 1)) == sum_int(s.take(i)) + s[i],
{
    assert(s.take(i + 1).drop_last() =~= s.take(i));
}

proof fn lemma_sum_int_bounded(s: Seq<int>, i: int)
    requires
        0 <= i <= s.len(),
        forall|k: int| 0 <= k < s.len() ==> 0 <= #[trigger] s[k],
    ensures
        0 <= sum_int(s.take(i)) <= sum_int(s),
        forall|k: int| 0 <= k < s.len() ==> #[trigger] s[k] <= sum_int(s),
    decreases s.len(),
{
    if s.len() > 0 {
        let t = s.drop_last();
        lemma_sum_int_bounded(t, if i < s.len() { i } else { t.len() as int });
        lemma_sum_int_bounded(t, t.len() as int);
        assert(t.take(t.len() as int) =~= t);
        if i < s.len() {
            assert(t.take(i) =~= s.take(i));
        } else {
            assert(s.take(i) =~= s);
        }
        assert forall|k: int| 0 <= k < s.len() implies #[trigger] s[k] <= sum_int(s) by {
            if k < t.len() {
                assert(s[k] == t[k]);
            }
        }
    } else {
        assert(s.take(i) =~= s);
    }
}

proof fn lemma_positives(s: Seq<int>, i: int, j: int)
    requires
        i <= j,
    ensures
        0 <= positives_from(s, j) <= positives_from(s, i),
    decreases s.len() - i,
{
    if i < s.len() {
        if i < j {
            lemma_positives(s, i + 1, j);
        } else {
            lemma_positives(s, i + 1, i + 1);
        }
    }
}

/// Entries as numbers without bounds.
pub open spec fn as_ints(v: Seq<usize>) -> Seq<int> {
    Seq::new(v.len(), |i: int| v[i] as int)
}

/// The extra workers of each cluster, in the order of the ranking.
fn extra_workers(order: &Vec<(usize, usize)>, remaining: usize, total: usize) -> (r: Vec<usize>)
    requires
        total > 0,
    ensures
        as_ints(r@) == adjusted(
            Seq::new(
                order@.len(),
                |j: int| extra_share(order@[j].1 as int, remaining as int, total as int),
            ),
            remaining as int,
        ),
{
    let ghost want = Seq::new(
        order@.len(),
        |j: int| extra_share(order@[j].1 as int, remaining as int, total as int),
    );
    let mut extras: Vec<usize> = Vec::new();
    let mut all: u128 = 0;
    for j in 0..order.len()
        invariant
            total > 0,
            extras@.len() == j,
            order@.len() <= usize::MAX,
            want == Seq::new(
                order@.len(),
                |j: int| extra_share(order@[j].1 as int, remaining as int, total as int),
            ),
            forall|k: int| 0 <= k < j ==> #[trigger] extras@[k] == want[k],
            all == sum_int(want.take(j as int)),
            all <= j * usize::MAX,
    {
        let ratio = Binary64::from_usize(order[j].1).over(Binary64::from_usize(total));
        let extra: usize = Binary64::from_usize(remaining).times(ratio).round_to_usize();
        proof {
            lemma_sum_int_step(want, j as int);
            assert((j + 1) * usize::MAX == j * usize::MAX + usize::MAX) by (nonlinear_arith);
            assert((j + 1) * usize::MAX <= 0xFFFF_FFFF_FFFF_FFFF * 0xFFFF_FFFF_FFFF_FFFF)
                by (nonlinear_arith)
                requires
                    0 <= j + 1 <= 0xFFFF_FFFF_FFFF_FFFF,
                    usize::MAX <= 0xFFFF_FFFF_FFFF_FFFF,
            ;
        }
        extras.push(extra);
        all = all + extra as u128;
    }
    assert(want.take(want.len() as int) =~= want);
    assert(forall|k: int| 0 <= k < want.len() ==> 0 <= #[trigger] want[k]) by {
        assert(forall|k: int| 0 <= k < want.len() ==> #[trigger] extras@[k] == want[k]);
        assert forall|k: int| 0 <= k < want.len() implies 0 <= #[trigger] want[k] by {
            assert(extras@[k] == want[k]);
        }
    }
    if all > remaining as u128 {
        let ghost excess = all - remaining;
        let mut i: usize = extras.len();
        while i > 0
            invariant
                i <= extras@.len() == want.len(),
                excess == sum_int(want) - remaining,
                excess > 0,
                all == sum_int(want) - min(positives_from(want, i as int), excess),
                forall|k: int| 0 <= k < i ==> #[trigger] extras@[k] == want[k],
                forall|k: int|
                    i <= k < want.len() ==> #[trigger] extras@[k] == lowered(want, excess)[k],
            decreases i,
        {
            proof {
                lemma_positives(want, i as int, i as int);
            }
            i = i - 1;
            assert(extras@[i as int] == want[i as int]);
            if all > remaining as u128 && extras[i] > 0 {
                let less: usize = extras[i] - 1;
                extras[i] = less;
                all = all - 1;
            }
        }
        assert(as_ints(extras@) =~= lowered(want, excess));
    } else {
        let shortfall: u128 = remaining as u128 - all;
        let mut i: usize = 0;
        proof {
            lemma_sum_int_bounded(want, 0);
        }
        while i < extras.len() && (i as u128) < shortfall
            invariant
                i <= extras@.len() == want.len(),
                i <= shortfall,
                shortfall == remaining - sum_int(want),
                forall|k: int|
                    0 <= k < want.len() ==> 0 <= #[trigger] want[k] <= sum_int(want),
                forall|k: int| 0 <= k < i ==> #[trigger] extras@[k] == want[k] + 1,
                forall|k: int| i <= k < want.len() ==> #[trigger] extras@[k] == want[k],
            decreases extras@.len() - i,
        {
            assert(extras@[i as int] == want[i as int]);
            let more: usize = extras[i] + 1;
            extras[i] = more;
            i = i + 1;
        }
        assert(as_ints(extras@) =~= raised(want, shortfall as int));
    }
    extras
}

fn largest_cluster(sizes: &Vec<usize>) -> (r: usize)
    requires
        sizes@.len() > 0,
    ensures
        r == largest(sizes@),
        r < sizes@.len(),
{
    let mut r: usize = 0;
    assert(sizes@.take(1).len() == 1);
    for i in 1..sizes.len()
        invariant
            1 <= sizes@.len(),
            r == largest(sizes@.take(i as int)),
            r < i,
    {
        proof {
            assert(sizes@.take(i + 1).drop_last() =~= sizes@.take(i as int));
        }
        if sizes[i] >= sizes[r] {
            r = i;
        }
    }
    assert(sizes@.take(sizes@.len() as int) =~= sizes@);
    r
}

/// Calculate worker assignments based on cluster sizes
/// Ensures each cluster gets at least 1 worker if possible
pub fn calculate_worker_distribution(cluster_stats: &[ClusterStats], total_workers: usize) -> (r:
    Vec<Vec<usize>>)
    requires
        cluster_stats@.len() < total_workers ==> {
            &&& cluster_stats@.len() > 0
            &&& sum(counts(cluster_stats@)) <= usize::MAX
        },
    ensures
        lists(r@) == distribution(counts(cluster_stats@), total_workers as int),
        r@.len() == cluster_stats@.len(),
        forall|c: int|
            0 <= c < r@.len() ==> (#[trigger] r@[c])@ == distribution(
                Seq::new(cluster_stats@.len(), |i: int| cluster_stats@[i].count),
                total_workers as int,
            )[c],
{
    let num_clusters: usize = cluster_stats.len();
    let ghost all_counts = counts(cluster_stats@);
    let mut assignments: Vec<Vec<usize>> = Vec::new();
    for cluster_id in 0..num_clusters
        invariant
            assignments@.len() == cluster_id,
            forall|c: int|
                0 <= c < cluster_id ==> (#[trigger] assignments@[c])@ == one_each(
                    num_clusters as int,
                    total_workers as int,
                )[c],
    {
        let mut own: Vec<usize> = Vec::new();
        if cluster_id < total_workers {
            own.push(cluster_id);
        }
        assert(own@ =~= one_each(num_clusters as int, total_workers as int)[cluster_id as int]);
        assignments.push(own);
    }
    assert(lists(assignments@) =~= one_each(num_clusters as int, total_workers as int));
    if num_clusters >= total_workers {
        assert forall|c: int| 0 <= c < num_clusters implies (#[trigger] assignments@[c])@
            == distribution(all_counts, total_workers as int)[c] by {
            assert(lists(assignments@)[c] == assignments@[c]@);
        }
        return assignments;
    }
    let mut sizes: Vec<usize> = Vec::new();
    let mut total_vectors: usize = 0;
    for i in 0..num_clusters
        invariant
            num_clusters == cluster_stats@.len(),
            all_counts == counts(cluster_stats@),
            sum(all_counts) <= usize::MAX,
            sizes@ == all_counts.take(i as int),
            total_vectors == sum(all_counts.take(i as int)),
    {
        proof {
            lemma_prefix_sum_step(all_counts, i as int);
            lemma_prefix_sum_bounded(all_counts, i + 1);
        }
        sizes.push(cluster_stats[i].count);
        total_vectors = total_vectors + cluster_stats[i].count;
        assert(sizes@ =~= all_counts.take(i + 1));
    }
    assert(all_counts.take(num_clusters as int) =~= all_counts);
    let remaining: usize = total_workers - num_clusters;
    let mut worker_id: usize = num_clusters;
    if total_vectors > 0 {
        let order = rank(&sizes);
        let extras = extra_workers(&order, remaining, total_vectors);
        let ghost quotas = adjusted(
            extra_shares(all_counts, remaining as int),
            remaining as int,
        );
        let ghost first = lists(assignments@);
        proof {
            lemma_ranked_entries(all_counts);
            assert(Seq::new(
                order@.len(),
                |j: int| extra_share(order@[j].1 as int, remaining as int, total_vectors as int),
            ) =~= extra_shares(all_counts, remaining as int));
            assert(as_ints(extras@) == quotas);
            assert(forall|j: int| 0 <= j < quotas.len() ==> quotas[j] == as_ints(extras@)[j]);
            assert(quotas.take(0) =~= Seq::empty());
        }
        for j in 0..num_clusters
            invariant
                num_clusters < total_workers,
                num_clusters == all_counts.len(),
                order@ == ranked(all_counts),
                order@.len() == num_clusters,
                extras@.len() == num_clusters,
                quotas.len() == num_clusters,
                forall|j: int| 0 <= j < num_clusters ==> #[trigger] quotas[j] == extras@[j],
                forall|j: int| 0 <= j < num_clusters ==> (#[trigger] order@[j]).0 < num_clusters,
                first.len() == num_clusters,
                assignments@.len() == num_clusters,
                worker_id == next_worker(
                    quotas,
                    num_clusters as int,
                    total_workers as int,
                    j as int,
                ),
                worker_id <= total_workers,
                lists(assignments@) == proportional(
                    first,
                    order@,
                    quotas,
                    total_workers as int,
                    j as int,
                ),
        {
            proof {
                lemma_sum_int_step(quotas, j as int);
                assert(quotas[j as int] == extras@[j as int]);
            }
            let left: usize = total_workers - worker_id;
            let until: usize = if extras[j] < left {
                worker_id + extras[j]
            } else {
                total_workers
            };
            let cluster_id: usize = order[j].0;
            give(&mut assignments, cluster_id, worker_id, until);
            worker_id = until;
        }
    } else {
        proof {
            crate::sums::lemma_sum_non_negative(all_counts);
        }
    }
    let last: usize = largest_cluster(&sizes);
    give(&mut assignments, last, worker_id, total_workers);
    assert forall|c: int| 0 <= c < assignments@.len() implies (#[trigger] assignments@[c])@
        == distribution(all_counts, total_workers as int)[c] by {
        assert(lists(assignments@)[c] == assignments@[c]@);
    }
    assignments
}

/// A worker is in some list.
pub open spec fn is_placed(lists: Seq<Seq<usize>>, w: int) -> bool {
    exists|c: int, i: int|
        0 <= c < lists.len() && 0 <= i < lists[c].len() && #[trigger] lists[c][i] == w
}

/// Every worker below `n` is in exactly one place of the lists, and no other worker is.
pub open spec fn each_worker_once(lists: Seq<Seq<usize>>, n: int) -> bool {
    &&& forall|c: int, i: int|
        0 <= c < lists.len() && 0 <= i < lists[c].len() ==> (#[trigger] lists[c][i]) < n
    &&& forall|w: int| 0 <= w < n ==> #[trigger] is_placed(lists, w)
    &&& forall|c: int, i: int, d: int, j: int|
        0 <= c < lists.len() && 0 <= i < lists[c].len() && 0 <= d < lists.len() && 0 <= j
            < lists[d].len() && #[trigger] lists[c][i] == #[trigger] lists[d][j] ==> c == d && i
            == j
}

proof fn lemma_given_keeps_each_once(
    lists: Seq<Seq<usize>>,
    cluster: int,
    from: int,
    to: int,
)
    requires
        0 <= cluster < lists.len(),
        0 <= from <= to <= usize::MAX,
        each_worker_once(lists, from),
    ensures
        each_worker_once(given(lists, cluster, from, to), to),
{
    let after = given(lists, cluster, from, to);
    let old_len = lists[cluster].len() as int;
    assert forall|c: int, i: int|
        0 <= c < after.len() && 0 <= i < after[c].len() implies (#[trigger] after[c][i]) < to by {
        if c != cluster || i < old_len {
            assert(after[c][i] == lists[c][i]);
        }
    }
    assert forall|w: int| 0 <= w < to implies #[trigger] is_placed(after, w) by {
        if w < from {
            assert(is_placed(lists, w));
            let (c, i) = choose|c: int, i: int|
                0 <= c < lists.len() && 0 <= i < lists[c].len() && #[trigger] lists[c][i] == w;
            assert(after[c][i] == lists[c][i]);
        } else {
            assert(after[cluster][old_len + (w - from)] == w);
        }
    }
    assert forall|c: int, i: int, d: int, j: int|
        0 <= c < after.len() && 0 <= i < after[c].len() && 0 <= d < after.len() && 0 <= j
            < after[d].len() && #[trigger] after[c][i] == #[trigger] after[d][j] implies c == d
        && i == j by {
        let old_i = c != cluster || i < old_len;
        let old_j = d != cluster || j < old_len;
        if old_i {
            assert(after[c][i] == lists[c][i]);
        }
        if old_j {
            assert(after[d][j] == lists[d][j]);
        }
    }
}

proof fn lemma_quotas_non_negative(s: Seq<int>, remaining: int)
    requires
        forall|k: int| 0 <= k < s.len() ==> 0 <= #[trigger] s[k],
    ensures
        forall|k: int| 0 <= k < s.len() ==> 0 <= #[trigger] adjusted(s, remaining)[k],
        adjusted(s, remaining).len() == s.len(),
{
}

proof fn lemma_proportional_keeps_each_once(
    first: Seq<Seq<usize>>,
    order: Seq<(usize, usize)>,
    quotas: Seq<int>,
    total_workers: int,
    j: int,
)
    requires
        0 <= j <= quotas.len() == first.len(),
        order.len() == first.len(),
        first.len() <= total_workers <= usize::MAX,
        forall|k: int| 0 <= k < order.len() ==> (#[trigger] order[k]).0 < first.len(),
        forall|k: int| 0 <= k < quotas.len() ==> 0 <= #[trigger] quotas[k],
        each_worker_once(first, first.len() as int),
    ensures
        proportional(first, order, quotas, total_workers, j).len() == first.len(),
        first.len() <= next_worker(quotas, first.len() as int, total_workers, j) <= total_workers,
        each_worker_once(
            proportional(first, order, quotas, total_workers, j),
            next_worker(quotas, first.len() as int, total_workers, j),
        ),
        forall|c: int|
            0 <= c < first.len() ==> #[trigger] first[c].is_prefix_of(
                proportional(first, order, quotas, total_workers, j)[c],
            ),
    decreases j,
{
    lemma_sum_int_bounded(quotas, j);
    if j > 0 {
        lemma_proportional_keeps_each_once(first, order, quotas, total_workers, j - 1);
        lemma_sum_int_step(quotas, j - 1);
        let before = proportional(first, order, quotas, total_workers, j - 1);
        let n = first.len() as int;
        assert(order[j - 1].0 < first.len());
        assert(0 <= quotas[j - 1]);
        lemma_given_keeps_each_once(
            before,
            order[j - 1].0 as int,
            next_worker(quotas, n, total_workers, j - 1),
            next_worker(quotas, n, total_workers, j),
        );
        assert forall|c: int| 0 <= c < first.len() implies #[trigger] first[c].is_prefix_of(
            proportional(first, order, quotas, total_workers, j)[c],
        ) by {
            assert(first[c].is_prefix_of(before[c]));
        }
    } else {
        assert(quotas.take(0) =~= Seq::empty());
    }
}

proof fn lemma_one_each(num_clusters: int, total_workers: int)
    requires
        0 <= num_clusters <= usize::MAX,
        0 <= total_workers,
    ensures
        each_worker_once(one_each(num_clusters, total_workers), min(num_clusters, total_workers)),
{
    let first = one_each(num_clusters, total_workers);
    assert forall|w: int| 0 <= w < min(num_clusters, total_workers) implies #[trigger] is_placed(
        first,
        w,
    ) by {
        assert(first[w][0] == w);
    }
}

/// The cluster that gets the last workers is a largest one, and the last of those.
pub proof fn law_largest_cluster(counts: Seq<usize>)
    requires
        counts.len() > 0,
    ensures
        0 <= largest(counts) < counts.len(),
        forall|i: int| 0 <= i < counts.len() ==> #[trigger] counts[i] <= counts[largest(counts)],
        forall|i: int|
            largest(counts) < i < counts.len() ==> #[trigger] counts[i] < counts[largest(counts)],
    decreases counts.len(),
{
    if counts.len() > 1 {
        law_largest_cluster(counts.drop_last());
        let before = largest(counts.drop_last());
        assert(forall|i: int|
            0 <= i < counts.len() - 1 ==> #[trigger] counts[i] == counts.drop_last()[i]);
    }
}

/// Every worker builds exactly one cluster: with at least as many workers as clusters all of
/// them are placed, and with fewer the first clusters get one each.
pub proof fn law_every_worker_is_placed_once(counts: Seq<usize>, total_workers: int)
    requires
        0 < counts.len() <= usize::MAX,
        0 <= total_workers <= usize::MAX,
    ensures
        distribution(counts, total_workers).len() == counts.len(),
        each_worker_once(distribution(counts, total_workers), total_workers),
{
    let n = counts.len() as int;
    let first = one_each(n, total_workers);
    lemma_one_each(n, total_workers);
    if n < total_workers {
        law_largest_cluster(counts);
        if sum(counts) == 0 {
            lemma_given_keeps_each_once(first, largest(counts), n, total_workers);
        } else {
            let shares = extra_shares(counts, total_workers - n);
            lemma_quotas_non_negative(shares, total_workers - n);
            let quotas = adjusted(shares, total_workers - n);
            lemma_ranked_entries(counts);
            lemma_proportional_keeps_each_once(first, ranked(counts), quotas, total_workers, n);
            lemma_given_keeps_each_once(
                proportional(first, ranked(counts), quotas, total_workers, n),
                largest(counts),
                next_worker(quotas, n, total_workers, n),
                total_workers,
            );
        }
    }
}

/// With at least as many workers as clusters, each cluster has the worker of its own number,
/// and that one comes first.
pub proof fn law_each_cluster_has_a_worker(counts: Seq<usize>, total_workers: int, cluster: int)
    requires
        0 <= cluster < counts.len() <= total_workers <= usize::MAX,
    ensures
        distribution(counts, total_workers)[cluster].len() >= 1,
        distribution(counts, total_workers)[cluster][0] == cluster,
{
    let n = counts.len() as int;
    let first = one_each(n, total_workers);
    lemma_one_each(n, total_workers);
    if n < total_workers {
        law_largest_cluster(counts);
        if sum(counts) != 0 {
            let shares = extra_shares(counts, total_workers - n);
            lemma_quotas_non_negative(shares, total_workers - n);
            let quotas = adjusted(shares, total_workers - n);
            lemma_ranked_entries(counts);
            lemma_proportional_keeps_each_once(first, ranked(counts), quotas, total_workers, n);
            let second = proportional(first, ranked(counts), quotas, total_workers, n);
            assert(first[cluster].is_prefix_of(second[cluster]));
            assert(first[cluster][0] == cluster);
            assert(second[cluster][0] == cluster);
        }
    }
}

/// No worker is idle, none has two places, and there are no others.
pub proof fn law_no_worker_is_idle(
    counts: Seq<usize>,
    total_workers: int,
    worker: int,
    c: int,
    i: int,
    d: int,
    j: int,
)
    requires
        0 < counts.len() <= usize::MAX,
        0 <= worker < total_workers <= usize::MAX,
    ensures
        ({
            let all = distribution(counts, total_workers);
            &&& all.len() == counts.len()
            &&& exists|c: int, i: int|
                0 <= c < all.len() && 0 <= i < all[c].len() && #[trigger] all[c][i] == worker
            &&& 0 <= c < all.len() && 0 <= i < all[c].len() ==> all[c][i] < total_workers
            &&& 0 <= c < all.len() && 0 <= i < all[c].len() && 0 <= d < all.len() && 0 <= j
                < all[d].len() && all[c][i] == all[d][j] ==> c == d && i == j
        }),
{
    law_every_worker_is_placed_once(counts, total_workers);
    assert(is_placed(distribution(counts, total_workers), worker));
}

/// With no more workers than clusters, the cluster of each worker's number has that worker alone,
/// and the clusters beyond have none.
pub proof fn law_few_workers_take_the_first_clusters(
    counts: Seq<usize>,
    total_workers: int,
    cluster: int,
)
    requires
        0 <= cluster < counts.len() <= usize::MAX,
        0 <= total_workers <= counts.len(),
    ensures
        cluster < total_workers ==> distribution(counts, total_workers)[cluster] == seq![
            cluster as usize,
        ],
        cluster >= total_workers ==> distribution(counts, total_workers)[cluster].len() == 0,
{
}

/// Where no cluster has vectors, every cluster has one worker, and the last one all that are left.
pub proof fn law_without_vectors_the_last_cluster_has_the_rest(
    counts: Seq<usize>,
    total_workers: int,
    cluster: int,
)
    requires
        0 <= cluster < counts.len() <= total_workers <= usize::MAX,
        forall|i: int| 0 <= i < counts.len() ==> #[trigger] counts[i] == 0,
    ensures
        cluster < counts.len() - 1 ==> distribution(counts, total_workers)[cluster].len() == 1,
        cluster == counts.len() - 1 ==> distribution(counts, total_workers)[cluster].len() == 1
            + total_workers - counts.len(),
{
    lemma_zeros_sum(counts);
    law_largest_cluster(counts);
    let last = counts.len() - 1;
    assert(counts[last] == 0 && counts[largest(counts)] == 0);
    assert(largest(counts) == last);
}

/// Each cluster has one place in the ranking.
proof fn lemma_ranked_once(counts: Seq<usize>)
    requires
        counts.len() <= usize::MAX,
    ensures
        forall|i: int, j: int|
            0 <= i < counts.len() && 0 <= j < counts.len() && (#[trigger] ranked(counts)[i]).0 == (
            #[trigger] ranked(counts)[j]).0 ==> i == j,
{
    let all = numbered(counts);
    assert(all.no_duplicates()) by {
        assert forall|i: int, j: int| 0 <= i < j < all.len() implies all[i] != all[j] by {
            assert(all[i].0 == i && all[j].0 == j);
        }
    }
    law_ranking(counts, ranked(counts));
    lemma_ranked_entries(counts);
    all.lemma_multiset_has_no_duplicates();
    ranked(counts).lemma_multiset_has_no_duplicates_conv();
    assert forall|i: int, j: int|
        0 <= i < counts.len() && 0 <= j < counts.len() && (#[trigger] ranked(counts)[i]).0 == (
        #[trigger] ranked(counts)[j]).0 implies i == j by {
        assert(ranked(counts)[i] == ranked(counts)[j]);
    }
}

/// Besides its first workers a cluster gets no more than its quota.
proof fn lemma_proportional_within_quota(
    first: Seq<Seq<usize>>,
    order: Seq<(usize, usize)>,
    quotas: Seq<int>,
    total_workers: int,
    j: int,
    cluster: int,
    quota: int,
)
    requires
        0 <= j <= quotas.len() == first.len(),
        order.len() == first.len(),
        0 <= cluster < first.len() <= total_workers,
        0 <= quota,
        forall|k: int| 0 <= k < order.len() ==> (#[trigger] order[k]).0 < first.len(),
        forall|k: int| 0 <= k < quotas.len() ==> 0 <= #[trigger] quotas[k],
        forall|a: int, b: int|
            0 <= a < order.len() && 0 <= b < order.len() && (#[trigger] order[a]).0 == (
            #[trigger] order[b]).0 ==> a == b,
        forall|k: int|
            0 <= k < order.len() && (#[trigger] order[k]).0 == cluster ==> quotas[k] <= quota,
    ensures
        proportional(first, order, quotas, total_workers, j).len() == first.len(),
        proportional(first, order, quotas, total_workers, j)[cluster].len()
            <= first[cluster].len() + quota,
        (forall|k: int| 0 <= k < j ==> (#[trigger] order[k]).0 != cluster) ==> proportional(
            first,
            order,
            quotas,
            total_workers,
            j,
        )[cluster].len() == first[cluster].len(),
    decreases j,
{
    if j > 0 {
        lemma_proportional_within_quota(
            first,
            order,
            quotas,
            total_workers,
            j - 1,
            cluster,
            quota,
        );
        lemma_sum_int_bounded(quotas, j);
        lemma_sum_int_bounded(quotas, j - 1);
        lemma_sum_int_step(quotas, j - 1);
        let last = order[j - 1];
        if last.0 == cluster {
            assert forall|k: int| 0 <= k < j - 1 implies (#[trigger] order[k]).0 != cluster by {
                if order[k].0 == cluster {
                    assert(order[k].0 == order[j - 1].0);
                }
            }
        }
    }
}

/// While any cluster has vectors, one without gets at most two workers.
pub proof fn law_empty_cluster_has_few_workers(
    counts: Seq<usize>,
    total_workers: int,
    cluster: int,
)
    requires
        0 <= cluster < counts.len() <= usize::MAX,
        0 <= total_workers <= usize::MAX,
        sum(counts) > 0,
        counts[cluster] == 0,
    ensures
        distribution(counts, total_workers)[cluster].len() <= 2,
{
    let n = counts.len() as int;
    let first = one_each(n, total_workers);
    if n < total_workers {
        law_largest_cluster(counts);
        assert(counts[largest(counts)] > 0) by {
            if counts[largest(counts)] == 0 {
                lemma_zeros_sum(counts);
            }
        }
        let shares = extra_shares(counts, total_workers - n);
        lemma_quotas_non_negative(shares, total_workers - n);
        let quotas = adjusted(shares, total_workers - n);
        lemma_ranked_entries(counts);
        lemma_ranked_once(counts);
        assert forall|k: int|
            0 <= k < n && (#[trigger] ranked(counts)[k]).0 == cluster implies quotas[k] <= 1 by {
            let many = from_int(total_workers - n);
            assert(ranked(counts)[k].1 == 0);
            assert(over(from_int(0), from_int(sum(counts))) == zero());
            assert(many.mant * zero().mant == 0);
            assert(times(many, zero()) == zero());
            assert(zero().round() == 0);
            assert(shares[k] == 0);
        }
        lemma_proportional_within_quota(
            first,
            ranked(counts),
            quotas,
            total_workers,
            n,
            cluster,
            1,
        );
    }
}

proof fn lemma_fewer_positives_further_on(s: Seq<int>, i: int, j: int)
    requires
        0 <= i <= j,
    ensures
        positives_from(s, j) <= positives_from(s, i),
        0 <= positives_from(s, j),
    decreases s.len() - i, s.len() - j,
{
    if j < s.len() {
        lemma_fewer_positives_further_on(s, j + 1, j + 1);
    }
    if i < j && i < s.len() {
        lemma_fewer_positives_further_on(s, i + 1, j);
    }
}

/// The quotas descend as the shares do.
proof fn lemma_quotas_descend(s: Seq<int>, remaining: int, i: int, j: int)
    requires
        0 <= i < j < s.len(),
        s[j] <= s[i],
    ensures
        adjusted(s, remaining)[j] <= adjusted(s, remaining)[i],
{
    lemma_fewer_positives_further_on(s, i + 1, j + 1);
}

/// A cluster of the ranking gets what is left of its quota.
proof fn lemma_proportional_gives(
    first: Seq<Seq<usize>>,
    order: Seq<(usize, usize)>,
    quotas: Seq<int>,
    total_workers: int,
    j: int,
    k: int,
)
    requires
        0 <= j <= quotas.len() == first.len(),
        order.len() == first.len(),
        0 <= k < first.len() <= total_workers,
        forall|i: int| 0 <= i < order.len() ==> (#[trigger] order[i]).0 < first.len(),
        forall|i: int| 0 <= i < quotas.len() ==> 0 <= #[trigger] quotas[i],
        forall|a: int, b: int|
            0 <= a < order.len() && 0 <= b < order.len() && (#[trigger] order[a]).0 == (
            #[trigger] order[b]).0 ==> a == b,
    ensures
        ({
            let after = proportional(first, order, quotas, total_workers, j);
            let n = first.len() as int;
            let cluster = order[k].0 as int;
            &&& after.len() == first.len()
            &&& after[cluster].len() == first[cluster].len() + if k < j {
                next_worker(quotas, n, total_workers, k + 1) - next_worker(
                    quotas,
                    n,
                    total_workers,
                    k,
                )
            } else {
                0
            }
        }),
    decreases j,
{
    if j > 0 {
        lemma_proportional_gives(first, order, quotas, total_workers, j - 1, k);
        lemma_sum_int_bounded(quotas, j);
        lemma_sum_int_bounded(quotas, j - 1);
        lemma_sum_int_step(quotas, j - 1);
        assert(order[j - 1].0 < first.len());
        assert(0 <= quotas[j - 1]);
        if j - 1 != k {
            assert(order[j - 1].0 != order[k].0);
        }
    }
}

proof fn lemma_ranked_place(counts: Seq<usize>, cluster: int) -> (k: int)
    requires
        0 <= cluster < counts.len() <= usize::MAX,
    ensures
        0 <= k < counts.len(),
        ranked(counts)[k].0 == cluster,
        ranked(counts)[k].1 == counts[cluster],
{
    broadcast use group_to_multiset_ensures;

    law_ranking(counts, ranked(counts));
    let entry = numbered(counts)[cluster];
    assert(numbered(counts).contains(entry));
    assert(numbered(counts).to_multiset().count(entry) > 0);
    assert(ranked(counts).contains(entry));
    choose|k: int| 0 <= k < counts.len() && ranked(counts)[k] == entry
}

/// With at least as many workers as clusters, the larger of two clusters has no fewer workers.
pub proof fn law_larger_cluster_has_no_fewer_workers(
    counts: Seq<usize>,
    total_workers: int,
    larger: int,
    smaller: int,
)
    requires
        0 <= larger < counts.len(),
        0 <= smaller < counts.len(),
        counts.len() <= total_workers <= usize::MAX,
        counts[smaller] < counts[larger],
    ensures
        distribution(counts, total_workers)[smaller].len() <= distribution(
            counts,
            total_workers,
        )[larger].len(),
{
    let n = counts.len() as int;
    let first = one_each(n, total_workers);
    if n < total_workers {
        lemma_term_bounded(counts, larger);
        law_largest_cluster(counts);
        assert(smaller != largest(counts));
        let remaining = total_workers - n;
        let shares = extra_shares(counts, remaining);
        lemma_quotas_non_negative(shares, remaining);
        let quotas = adjusted(shares, remaining);
        law_ranking(counts, ranked(counts));
        lemma_ranked_entries(counts);
        lemma_ranked_once(counts);
        let i = lemma_ranked_place(counts, larger);
        let j = lemma_ranked_place(counts, smaller);
        assert(i < j) by {
            if j < i {
                assert(larger_first(ranked(counts)[j], ranked(counts)[i]));
            }
        }
        law_larger_cluster_has_no_smaller_share(
            counts[smaller] as int,
            counts[larger] as int,
            remaining,
            sum(counts),
        );
        lemma_quotas_descend(shares, remaining, i, j);
        lemma_proportional_gives(first, ranked(counts), quotas, total_workers, n, i);
        lemma_proportional_gives(first, ranked(counts), quotas, total_workers, n, j);
        lemma_sum_int_step(quotas, i);
        lemma_sum_int_step(quotas, j);
        lemma_sum_int_grows(quotas, i + 1, j);
    }
}

proof fn lemma_sum_int_grows(s: Seq<int>, i: int, j: int)
    requires
        0 <= i <= j <= s.len(),
        forall|k: int| 0 <= k < s.len() ==> 0 <= #[trigger] s[k],
    ensures
        sum_int(s.take(i)) <= sum_int(s.take(j)),
    decreases j - i,
{
    if i < j {
        lemma_sum_int_grows(s, i, j - 1);
        lemma_sum_int_step(s, j - 1);
    }
}

/// A cluster's share of the remaining workers is the whole number nearest to
/// `remaining * count / total`, up to the rounding of doubles; where that quotient is a whole
/// number, the share is that number.
pub proof fn law_share_is_nearest(count: int, remaining: int, total: int)
    requires
        0 <= count <= total < 0x20_0000_0000_0000,
        0 < total,
        0 <= remaining <= usize::MAX,
        remaining < 0x100_0000_0000,
    ensures
        -1025 * total <= 2048 * (extra_share(count, remaining, total) * total - remaining * count)
            <= 1025 * total,
        0 <= extra_share(count, remaining, total) <= remaining,
        remaining * count % total == 0 ==> extra_share(count, remaining, total) == remaining
            * count / total,
{
    let x = times(from_int(remaining), over(from_int(count), from_int(total)));
    law_share_is_close(remaining, count, total);
    law_conversion_is_monotone(remaining, remaining);
    law_conversion_is_monotone(count, total);
    law_results_are_normalized(from_int(count), from_int(total));
    law_results_are_normalized(from_int(remaining), over(from_int(count), from_int(total)));
    law_rounding_is_exact(x);
    let s = x.round();
    let p = remaining * count;
    let (pr, t, v) = (p as real, total as real, value(x));
    let exact = pr / t;
    assert(exact * t == pr) by (nonlinear_arith)
        requires
            exact == pr / t,
            t > 0real,
    ;
    assert(p <= remaining * total) by (nonlinear_arith)
        requires
            p == remaining * count,
            0 <= remaining,
            count <= total,
    ;
    lemma_real_product(remaining, total);
    let r = remaining as real;
    assert(exact <= r) by (nonlinear_arith)
        requires
            exact * t == pr,
            pr <= r * t,
            t > 0real,
    ;
    let sr = s as real;
    assert(2048real * (sr - exact) <= 1025real);
    assert(-1025real <= 2048real * (sr - exact));
    assert(0 <= s <= remaining);
    lemma_ordered_products(2048real * (sr - exact), 1025real, t);
    lemma_ordered_products(-1025real, 2048real * (sr - exact), t);
    lemma_real_product(s, total);
    assert((2048real * (sr - exact)) * t == 2048real * (sr * t - pr)) by (nonlinear_arith)
        requires
            exact * t == pr,
    ;
    if p % total == 0 {
        let m = p / total;
        assert(p == m * total) by (nonlinear_arith)
            requires
                m == p / total,
                p % total == 0,
                total > 0,
        ;
        lemma_real_product(m, total);
        let mr = m as real;
        assert(exact == mr) by (nonlinear_arith)
            requires
                exact * t == pr,
                pr == mr * t,
                t > 0real,
        ;
    }
}

/// The sizes of listed clusters, added up.
spec fn weight(s: Seq<(usize, usize)>) -> int
    decreases s.len(),
{
    if s.len() == 0 {
        0
    } else {
        weight(s.drop_last()) + s.last().1
    }
}

proof fn lemma_weight_without(s: Seq<(usize, usize)>, i: int)
    requires
        0 <= i < s.len(),
    ensures
        weight(s) == weight(s.remove(i)) + s[i].1,
    decreases s.len(),
{
    if i < s.len() - 1 {
        lemma_weight_without(s.drop_last(), i);
        assert(s.remove(i).drop_last() =~= s.drop_last().remove(i));
    } else {
        assert(s.remove(i) =~= s.drop_last());
    }
}

proof fn lemma_weight_of_rearranged(a: Seq<(usize, usize)>, b: Seq<(usize, usize)>)
    requires
        a.to_multiset() == b.to_multiset(),
    ensures
        weight(a) == weight(b),
    decreases a.len(),
{
    broadcast use group_to_multiset_ensures;

    assert(a.len() == a.to_multiset().len() == b.to_multiset().len() == b.len());
    if a.len() > 0 {
        let last = a.last();
        assert(a.contains(last));
        assert(b.to_multiset().count(last) > 0);
        assert(b.contains(last));
        let i = choose|i: int| 0 <= i < b.len() && b[i] == last;
        assert(a.remove(a.len() - 1) =~= a.drop_last());
        assert(b.remove(i).to_multiset() =~= b.to_multiset().remove(last));
        assert(a.drop_last().to_multiset() =~= a.to_multiset().remove(last));
        lemma_weight_of_rearranged(a.drop_last(), b.remove(i));
        lemma_weight_without(b, i);
    }
}

proof fn lemma_weight_of_all(counts: Seq<usize>, i: int)
    requires
        0 <= i <= counts.len(),
    ensures
        weight(numbered(counts).take(i)) == sum(counts.take(i)),
    decreases i,
{
    if i > 0 {
        lemma_weight_of_all(counts, i - 1);
        assert(numbered(counts).take(i).drop_last() =~= numbered(counts).take(i - 1));
        assert(counts.take(i).drop_last() =~= counts.take(i - 1));
    }
}

/// The shares of the first clusters of a ranking, added up, against what is due to them.
proof fn lemma_shares_add_up(
    order: Seq<(usize, usize)>,
    shares: Seq<int>,
    remaining: int,
    total: int,
    j: int,
)
    requires
        0 <= j <= order.len() == shares.len(),
        0 < total < 0x20_0000_0000_0000,
        0 <= remaining <= usize::MAX,
        remaining < 0x100_0000_0000,
        forall|k: int| 0 <= k < order.len() ==> (#[trigger] order[k]).1 <= total,
        forall|k: int|
            0 <= k < order.len() ==> #[trigger] shares[k] == extra_share(
                order[k].1 as int,
                remaining,
                total,
            ),
    ensures
        ({
            let gap = total * sum_int(shares.take(j)) - remaining * weight(order.take(j));
            let positives = positives_from(shares, 0) - positives_from(shares, j);
            &&& 2048 * gap <= 1025 * (total * positives)
            &&& -1025 * (total * j) <= 2048 * gap
            &&& (forall|k: int|
                0 <= k < order.len() ==> remaining * (#[trigger] order[k]).1 % total == 0) ==> gap
                == 0
        }),
    decreases j,
{
    let before_s = sum_int(shares.take(j - 1));
    let before_w = weight(order.take(j - 1));
    if j > 0 {
        lemma_shares_add_up(order, shares, remaining, total, j - 1);
        lemma_sum_int_step(shares, j - 1);
        assert(order.take(j).drop_last() =~= order.take(j - 1));
        let (s, c) = (shares[j - 1], order[j - 1].1 as int);
        law_share_is_nearest(c, remaining, total);
        assert(total * (before_s + s) == total * before_s + s * total) by (nonlinear_arith);
        assert(remaining * (before_w + c) == remaining * before_w + remaining * c)
            by (nonlinear_arith);
        let p = positives_from(shares, 0) - positives_from(shares, j - 1);
        assert(positives_from(shares, j - 1) == positives_from(shares, j) + if s > 0 {
            1int
        } else {
            0int
        });
        assert(total * (p + 1) == total * p + total) by (nonlinear_arith);
        assert(total * j == total * (j - 1) + total) by (nonlinear_arith);
        if s == 0 {
            assert(s * total == 0);
            assert(remaining * c >= 0) by (nonlinear_arith)
                requires
                    remaining >= 0,
                    c >= 0,
            ;
        }
        if remaining * c % total == 0 {
            let due = remaining * c;
            assert(due / total * total == due) by (nonlinear_arith)
                requires
                    due % total == 0,
                    total > 0,
            ;
        }
    } else {
        assert(shares.take(0) =~= Seq::empty());
        assert(order.take(0) =~= Seq::empty());
        assert(total * 0 == 0 && remaining * 0 == 0);
    }
}

proof fn lemma_sum_of_lowered(s: Seq<int>, excess: int, i: int)
    requires
        0 <= i <= s.len(),
        0 <= excess,
    ensures
        sum_int(lowered(s, excess)) - sum_int(lowered(s, excess).take(i)) == sum_int(s) - sum_int(
            s.take(i),
        ) - min(positives_from(s, i), excess),
    decreases s.len() - i,
{
    let after = lowered(s, excess);
    if i < s.len() {
        lemma_sum_of_lowered(s, excess, i + 1);
        lemma_sum_int_step(s, i);
        lemma_sum_int_step(after, i);
        lemma_positives(s, i + 1, i + 1);
    } else {
        assert(s.take(i) =~= s);
        assert(after.take(i) =~= after);
    }
}

proof fn lemma_sum_of_raised(s: Seq<int>, shortfall: int, i: int)
    requires
        0 <= i <= s.len(),
        0 <= shortfall,
    ensures
        sum_int(raised(s, shortfall).take(i)) == sum_int(s.take(i)) + min(i, shortfall),
    decreases i,
{
    let after = raised(s, shortfall);
    if i > 0 {
        lemma_sum_of_raised(s, shortfall, i - 1);
        lemma_sum_int_step(s, i - 1);
        lemma_sum_int_step(after, i - 1);
    } else {
        assert(s.take(0) =~= Seq::empty());
        assert(after.take(0) =~= Seq::empty());
    }
}

/// The adjusted shares add up to exactly the workers that remain, and each is at most one away
/// from the share; where every exact share is a whole number, nothing is adjusted.
proof fn lemma_quotas_add_up(counts: Seq<usize>, remaining: int)
    requires
        counts.len() <= usize::MAX,
        0 < sum(counts) < 0x20_0000_0000_0000,
        0 <= remaining <= usize::MAX,
        remaining < 0x100_0000_0000,
    ensures
        ({
            let shares = extra_shares(counts, remaining);
            let quotas = adjusted(shares, remaining);
            &&& shares.len() == counts.len()
            &&& quotas.len() == counts.len()
            &&& sum_int(quotas) == remaining
            &&& forall|j: int|
                0 <= j < counts.len() ==> shares[j] - 1 <= #[trigger] quotas[j] <= shares[j] + 1
            &&& (forall|c: int|
                0 <= c < counts.len() ==> remaining * (#[trigger] counts[c]) % sum(counts) == 0)
                ==> quotas == shares
        }),
{
    let total = sum(counts);
    let order = ranked(counts);
    let shares = extra_shares(counts, remaining);
    let n = counts.len() as int;
    lemma_ranked_entries(counts);
    law_ranking(counts, order);
    assert forall|k: int| 0 <= k < order.len() implies (#[trigger] order[k]).1 <= total by {
        lemma_term_bounded(counts, order[k].0 as int);
    }
    lemma_shares_add_up(order, shares, remaining, total, n);
    assert(order.take(n) =~= order);
    assert(shares.take(n) =~= shares);
    lemma_weight_of_rearranged(order, numbered(counts));
    lemma_weight_of_all(counts, n);
    assert(numbered(counts).take(n) =~= numbered(counts));
    assert(counts.take(n) =~= counts);
    let all = sum_int(shares);
    let positives = positives_from(shares, 0);
    assert(positives_from(shares, n) == 0);
    lemma_positives(shares, 0, 0);
    assert(total * all - remaining * total == total * (all - remaining)) by (nonlinear_arith);
    if all > remaining {
        let excess = all - remaining;
        assert(excess <= positives) by (nonlinear_arith)
            requires
                2048 * (total * excess) <= 1025 * (total * positives),
                total > 0,
                positives >= 0,
        ;
        lemma_sum_of_lowered(shares, excess, 0);
        assert(shares.take(0) =~= Seq::empty());
        assert(lowered(shares, excess).take(0) =~= Seq::empty());
    } else {
        let shortfall = remaining - all;
        assert(total * (all - remaining) == -(total * shortfall)) by (nonlinear_arith)
            requires
                shortfall == remaining - all,
        ;
        assert(shortfall <= n) by (nonlinear_arith)
            requires
                2048 * (total * shortfall) <= 1025 * (total * n),
                total > 0,
                n >= 0,
        ;
        lemma_sum_of_raised(shares, shortfall, n);
        let after = raised(shares, shortfall);
        assert(after.take(n) =~= after);
    }
    if forall|c: int|
        0 <= c < counts.len() ==> remaining * (#[trigger] counts[c]) % sum(counts) == 0 {
        assert forall|k: int|
            0 <= k < order.len() implies remaining * (#[trigger] order[k]).1 % total == 0 by {
            assert(order[k].1 == counts[order[k].0 as int]);
        }
        assert(all == remaining) by (nonlinear_arith)
            requires
                total * (all - remaining) == 0,
                total > 0,
        ;
        assert(raised(shares, 0) =~= shares);
    }
}

/// With more workers than clusters, a cluster gets one worker and its quota.
#[verifier::spinoff_prover]
proof fn lemma_cluster_gets_its_quota(counts: Seq<usize>, total_workers: int, cluster: int) -> (k:
    int)
    requires
        0 <= cluster < counts.len() < total_workers <= usize::MAX,
        0 < sum(counts) < 0x20_0000_0000_0000,
        total_workers < 0x100_0000_0000,
    ensures
        ({
            let remaining = total_workers - counts.len();
            let shares = extra_shares(counts, remaining);
            let quotas = adjusted(shares, remaining);
            &&& 0 <= k < counts.len()
            &&& shares[k] == extra_share(counts[cluster] as int, remaining, sum(counts))
            &&& distribution(counts, total_workers)[cluster].len() == 1 + quotas[k]
        }),
{
    let n = counts.len() as int;
    let first = one_each(n, total_workers);
    let remaining = total_workers - n;
    let shares = extra_shares(counts, remaining);
    let quotas = adjusted(shares, remaining);
    lemma_quotas_non_negative(shares, remaining);
    lemma_quotas_add_up(counts, remaining);
    lemma_ranked_entries(counts);
    lemma_ranked_once(counts);
    law_largest_cluster(counts);
    let k = lemma_ranked_place(counts, cluster);
    lemma_proportional_gives(first, ranked(counts), quotas, total_workers, n, k);
    lemma_sum_int_bounded(quotas, k);
    lemma_sum_int_bounded(quotas, k + 1);
    lemma_sum_int_step(quotas, k);
    assert(quotas.take(n) =~= quotas);
    let second = proportional(first, ranked(counts), quotas, total_workers, n);
    assert(ids(total_workers, total_workers) =~= Seq::empty());
    assert(next_worker(quotas, n, total_workers, n) == total_workers);
    assert(distribution(counts, total_workers)[cluster].len() == second[cluster].len());
    k
}

/// With at least as many workers as clusters, the workers beyond one for each cluster go to the
/// clusters in proportion to their vectors: a cluster's part of them is less than two away
/// from `remaining * count / total`, and is exactly that where it is a whole number for every
/// cluster.
pub proof fn law_workers_are_in_proportion(counts: Seq<usize>, total_workers: int, cluster: int)
    requires
        0 <= cluster < counts.len() <= total_workers <= usize::MAX,
        0 < sum(counts) < 0x20_0000_0000_0000,
        total_workers < 0x100_0000_0000,
    ensures
        ({
            let remaining = total_workers - counts.len();
            let extra = distribution(counts, total_workers)[cluster].len() - 1;
            let total = sum(counts);
            &&& -2 * total < extra * total - remaining * counts[cluster] < 2 * total
            &&& (forall|c: int|
                0 <= c < counts.len() ==> remaining * (#[trigger] counts[c]) % total == 0) ==> extra
                == remaining * counts[cluster] / total
        }),
{
    let n = counts.len() as int;
    let remaining = total_workers - n;
    let total = sum(counts);
    let count = counts[cluster] as int;
    lemma_term_bounded(counts, cluster);
    if n < total_workers {
        let shares = extra_shares(counts, remaining);
        let quotas = adjusted(shares, remaining);
        lemma_quotas_add_up(counts, remaining);
        let k = lemma_cluster_gets_its_quota(counts, total_workers, cluster);
        law_share_is_nearest(count, remaining, total);
        let (s, q) = (shares[k], quotas[k]);
        assert(s * total - total <= q * total <= s * total + total) by (nonlinear_arith)
            requires
                s - 1 <= q <= s + 1,
                total > 0,
        ;
    } else {
        assert(0 * total == 0 && 0 * count == 0);
        assert(0int % total == 0 && 0int / total == 0) by (nonlinear_arith)
            requires
                total > 0,
        ;
    }
}

/// Which workers the cluster of a place in the ranking has been given.
proof fn lemma_proportional_lists(
    first: Seq<Seq<usize>>,
    order: Seq<(usize, usize)>,
    quotas: Seq<int>,
    total_workers: int,
    j: int,
    k: int,
)
    requires
        0 <= j <= quotas.len() == first.len(),
        order.len() == first.len(),
        0 <= k < first.len() <= total_workers,
        forall|i: int| 0 <= i < order.len() ==> (#[trigger] order[i]).0 < first.len(),
        forall|a: int, b: int|
            0 <= a < order.len() && 0 <= b < order.len() && (#[trigger] order[a]).0 == (
            #[trigger] order[b]).0 ==> a == b,
    ensures
        ({
            let after = proportional(first, order, quotas, total_workers, j);
            let n = first.len() as int;
            let cluster = order[k].0 as int;
            &&& after.len() == first.len()
            &&& after[cluster] == first[cluster] + if k < j {
                ids(
                    next_worker(quotas, n, total_workers, k),
                    next_worker(quotas, n, total_workers, k + 1),
                )
            } else {
                Seq::empty()
            }
        }),
    decreases j,
{
    let cluster = order[k].0 as int;
    if j > 0 {
        lemma_proportional_lists(first, order, quotas, total_workers, j - 1, k);
        assert(order[j - 1].0 < first.len());
        if j - 1 != k {
            assert(order[j - 1].0 != order[k].0);
        } else {
            assert(first[cluster] + Seq::<usize>::empty() =~= first[cluster]);
        }
    } else {
        assert(first[cluster] + Seq::<usize>::empty() =~= first[cluster]);
    }
}

/// The workers that a cluster gets besides its first have consecutive numbers, and of two
/// clusters the larger gets the lower ones; among equally large ones, the one with the smaller
/// number.
#[verifier::spinoff_prover]
pub proof fn law_further_workers_are_consecutive(
    counts: Seq<usize>,
    total_workers: int,
    a: int,
    b: int,
    i: int,
)
    requires
        0 <= a < counts.len() < total_workers <= usize::MAX,
        0 <= b < counts.len(),
        0 < sum(counts) < 0x20_0000_0000_0000,
        total_workers < 0x100_0000_0000,
    ensures
        ({
            let one = distribution(counts, total_workers)[a];
            let other = distribution(counts, total_workers)[b];
            &&& one.len() >= 1
            &&& one[0] == a
            &&& 1 <= i < one.len() - 1 ==> one[i + 1] == one[i] + 1
            &&& (counts[a] > counts[b] || (counts[a] == counts[b] && a < b)) && one.len() > 1
                && other.len() > 1 ==> one.last() < other[1]
        }),
{
    let n = counts.len() as int;
    let first = one_each(n, total_workers);
    let remaining = total_workers - n;
    let shares = extra_shares(counts, remaining);
    let quotas = adjusted(shares, remaining);
    lemma_quotas_non_negative(shares, remaining);
    lemma_quotas_add_up(counts, remaining);
    law_ranking(counts, ranked(counts));
    lemma_ranked_entries(counts);
    lemma_ranked_once(counts);
    law_largest_cluster(counts);
    let j = lemma_ranked_place(counts, a);
    let k = lemma_ranked_place(counts, b);
    lemma_proportional_lists(first, ranked(counts), quotas, total_workers, n, j);
    lemma_proportional_lists(first, ranked(counts), quotas, total_workers, n, k);
    assert(quotas.take(n) =~= quotas);
    assert(ids(total_workers, total_workers) =~= Seq::empty());
    let second = proportional(first, ranked(counts), quotas, total_workers, n);
    assert(distribution(counts, total_workers)[a] =~= second[a]);
    assert(distribution(counts, total_workers)[b] =~= second[b]);
    lemma_sum_int_bounded(quotas, j);
    lemma_sum_int_bounded(quotas, j + 1);
    lemma_sum_int_bounded(quotas, k);
    lemma_sum_int_bounded(quotas, k + 1);
    if counts[a] > counts[b] || (counts[a] == counts[b] && a < b) {
        assert(j < k) by {
            if k < j {
                assert(larger_first(ranked(counts)[k], ranked(counts)[j]));
            }
        }
        lemma_sum_int_grows(quotas, j + 1, k);
    }
}

} // verus!
