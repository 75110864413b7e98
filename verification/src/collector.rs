//! Which vectors of a table are looked at before its index is built: those that clusters are
//! formed from, and those that the sizes of clusters are estimated from.
use crate::accuracy::{law_bit_patterns_are_ordered, law_bit_patterns_stand_for_numbers, law_ceiling_of_quotient, law_conversion_is_close, law_product_with_quotient_is_close, law_rounding_is_exact, lemma_value_sign, two_to, value};
use crate::binary64::{decoded, from_int, law_nearest_is_normalized, law_positive_rounds_up, over, saturated, times, Binary64, FINITE_LIMIT, NEGATIVE_ZERO, ONE_BITS};
use crate::distribution::{counts, ClusterStats};
use crate::double_order::{law_conversion_is_monotone, law_decoded_is_normalized, law_results_are_normalized, law_rounding_is_monotone, law_times_is_monotone};
use crate::item_pointer::ItemPointerData;
use crate::k_means::copy_of;
use crate::sums::{lemma_sum_update, lemma_term_bounded, lemma_zeros_sum, sum};
use vstd::math::min;
use vstd::prelude::*;

verus! {

/// Collects the vectors from which clusters are formed: all vectors of a table, or a sample of
/// them once the table turns out to be larger than a threshold. A component of a vector is the
/// bit pattern of a single-precision number.
pub struct VectorCollector {
    pub vectors: Vec<Vec<u32>>,
    pub heap_tids: Vec<ItemPointerData>,
    /// How many vectors a sample holds at most; with zero there is no sampling.
    pub max_sample_size: usize,
    /// How many vectors a table has at most from which no sample is taken.
    pub sample_threshold: usize,
    /// The table is so large that a sample is taken.
    pub use_sampling: bool,
    pub total_vectors_seen: usize,
    /// Every how many vectors one is part of the sample.
    pub sample_interval: usize,
}

/// A vector, with the row that it comes from.
pub type VectorRow = (ItemPointerData, Seq<u32>);

/// Every `interval`th vector, in their order, and no more than `max` of them.
pub open spec fn thinned(rows: Seq<VectorRow>, max: int, interval: int) -> Seq<VectorRow> {
    Seq::new(
        min(max, rows.len() as int / interval) as nat,
        |j: int| rows[(j + 1) * interval - 1],
    )
}

/// The vectors of a table from which clusters are formed. A table that is larger than the
/// threshold is sampled; a sample size of zero turns sampling off, and with a threshold of zero
/// every table is sampled.
pub open spec fn sample_of(rows: Seq<VectorRow>, max: int, threshold: int) -> Seq<VectorRow> {
    if max == 0 || rows.len() <= threshold {
        rows
    } else {
        thinned(rows, max, sample_interval(max, threshold))
    }
}

/// What a collector holds, and the rule by which it goes on.
#[verifier::ext_equal]
pub struct CollectorView {
    pub kept: Seq<VectorRow>,
    pub seen: int,
    pub use_sampling: bool,
    pub max: int,
    pub threshold: int,
    pub interval: int,
}

impl CollectorView {
    /// A collector that has seen nothing.
    pub open spec fn initial(max: int, threshold: int) -> CollectorView {
        CollectorView {
            kept: Seq::empty(),
            seen: 0,
            use_sampling: false,
            max,
            threshold,
            interval: sample_interval(max, threshold),
        }
    }

    /// With one more vector the table is large enough to be sampled.
    pub open spec fn samples_from_here(self) -> bool {
        self.max > 0 && self.seen + 1 > self.threshold
    }

    /// What is kept of the vectors so far, when one more comes: they are thinned out at the
    /// moment at which sampling starts.
    pub open spec fn base(self) -> Seq<VectorRow> {
        if self.samples_from_here() && !self.use_sampling {
            thinned(self.kept, self.max, self.interval)
        } else {
            self.kept
        }
    }

    /// Whether the next vector is kept. When sampling, every `interval`th one is, until there
    /// are enough.
    pub open spec fn takes_next(self) -> bool {
        ||| !self.samples_from_here()
        ||| self.base().len() < self.max && (self.seen + 1) % self.interval == 0
    }

    /// After one more vector.
    pub open spec fn with(self, row: VectorRow) -> CollectorView {
        CollectorView {
            kept: if self.takes_next() {
                self.base().push(row)
            } else {
                self.base()
            },
            seen: self.seen + 1,
            use_sampling: self.samples_from_here(),
            ..self
        }
    }

    /// After all vectors of a table.
    pub open spec fn after(self, rows: Seq<VectorRow>) -> CollectorView
        decreases rows.len(),
    {
        if rows.len() == 0 {
            self
        } else {
            self.after(rows.drop_last()).with(rows.last())
        }
    }
}

/// Every how many vectors one is kept, so that a table of `threshold` vectors gives about
/// `max` samples. The quotient is taken in doubles and rounded up.
pub open spec fn sample_interval(max: int, threshold: int) -> int {
    if max > 0 && threshold > max {
        saturated(over(from_int(threshold), from_int(max)).ceil())
    } else {
        1
    }
}

impl View for VectorCollector {
    type V = CollectorView;

    open spec fn view(&self) -> CollectorView {
        CollectorView {
            kept: Seq::new(
                self.vectors@.len(),
                |i: int| (self.heap_tids@[i], self.vectors@[i]@),
            ),
            seen: self.total_vectors_seen as int,
            use_sampling: self.use_sampling,
            max: self.max_sample_size as int,
            threshold: self.sample_threshold as int,
            interval: self.sample_interval as int,
        }
    }
}

/// What a collector holds are its rows with their vectors, in order.
pub proof fn law_collector_holds_rows_with_vectors(collector: VectorCollector, i: int)
    ensures
        collector@.kept.len() == collector.vectors@.len(),
        0 <= i < collector.vectors@.len() ==> collector@.kept[i] == (
            collector.heap_tids@[i],
            collector.vectors@[i]@,
        ),
        collector@.seen == collector.total_vectors_seen,
        collector@.use_sampling == collector.use_sampling,
        collector@.max == collector.max_sample_size,
        collector@.threshold == collector.sample_threshold,
{
}

proof fn lemma_thinned_place(n: int, max: int, interval: int, j: int)
    requires
        0 <= n,
        1 <= interval,
        0 <= j < min(max, n / interval),
    ensures
        0 <= (j + 1) * interval - 1 < n,
        0 <= j * interval,
{
    let q = n / interval;
    assert(q * interval <= n) by (nonlinear_arith)
        requires
            interval >= 1,
            q == n / interval,
            n >= 0,
    ;
    assert(0 < (j + 1) * interval <= q * interval && 0 <= j * interval) by (nonlinear_arith)
        requires
            0 <= j < q,
            interval >= 1,
    ;
}

impl VectorCollector {
    /// There is a row for each vector; all are kept until sampling starts, and no more than
    /// enough from then on.
    pub open spec fn wf(self) -> bool {
        &&& self.heap_tids@.len() == self.vectors@.len()
        &&& self.sample_interval >= 1
        &&& self.use_sampling == (self.max_sample_size > 0 && self.total_vectors_seen
            > self.sample_threshold)
        &&& self.use_sampling ==> self.vectors@.len() <= self.max_sample_size
    }

    /// A collector that has seen nothing.
    pub fn new(max_sample_size: usize, sample_threshold: usize) -> (r: VectorCollector)
        ensures
            r.wf(),
            r@ == CollectorView::initial(max_sample_size as int, sample_threshold as int),
    {
        let sample_interval: usize = if max_sample_size > 0 && sample_threshold > max_sample_size {
            Binary64::from_usize(sample_threshold).over(
                Binary64::from_usize(max_sample_size),
            ).ceil_to_usize()
        } else {
            1
        };
        proof {
            law_sample_interval_is_positive(max_sample_size as int, sample_threshold as int);
        }
        let r = VectorCollector {
            vectors: Vec::new(),
            heap_tids: Vec::new(),
            max_sample_size,
            sample_threshold,
            use_sampling: false,
            total_vectors_seen: 0,
            sample_interval,
        };
        assert(r@ =~= CollectorView::initial(max_sample_size as int, sample_threshold as int));
        r
    }

    /// Keeps only a sample of the vectors so far.
    fn thin_out(&mut self)
        requires
            old(self).heap_tids@.len() == old(self).vectors@.len(),
            old(self).sample_interval >= 1,
        ensures
            final(self).heap_tids@.len() == final(self).vectors@.len(),
            final(self).vectors@.len() <= final(self).max_sample_size,
            final(self)@ == (CollectorView {
                kept: thinned(old(self)@.kept, old(self)@.max, old(self)@.interval),
                ..old(self)@
            }),
    {
        let interval: usize = self.sample_interval;
        let share: usize = self.vectors.len() / interval;
        let count: usize = if share < self.max_sample_size {
            share
        } else {
            self.max_sample_size
        };
        let mut vectors: Vec<Vec<u32>> = Vec::new();
        let mut heap_tids: Vec<ItemPointerData> = Vec::new();
        assert(self.vectors.len() <= usize::MAX);
        for j in 0..count
            invariant
                *self == *old(self),
                self.heap_tids@.len() == self.vectors@.len() <= usize::MAX,
                interval == self.sample_interval >= 1,
                count == min(
                    self.max_sample_size as int,
                    self.vectors@.len() as int / interval as int,
                ),
                vectors@.len() == heap_tids@.len() == j,
                forall|k: int|
                    0 <= k < j ==> (#[trigger] heap_tids@[k], vectors@[k]@) == thinned(
                        self@.kept,
                        self@.max,
                        self@.interval,
                    )[k],
        {
            proof {
                lemma_thinned_place(
                    self.vectors@.len() as int,
                    self.max_sample_size as int,
                    interval as int,
                    j as int,
                );
            }
            let at: usize = (j + 1) * interval - 1;
            vectors.push(copy_of(&self.vectors[at]));
            heap_tids.push(self.heap_tids[at]);
        }
        self.vectors = vectors;
        self.heap_tids = heap_tids;
        assert(self@.kept =~= thinned(old(self)@.kept, old(self)@.max, old(self)@.interval));
    }

    /// Looks at the vector of one more row.
    pub fn collect(&mut self, heap_tid: ItemPointerData, vector: &[u32])
        requires
            old(self).wf(),
            old(self).total_vectors_seen < usize::MAX,
        ensures
            final(self).wf(),
            final(self)@ == old(self)@.with((heap_tid, vector@)),
    {
        self.total_vectors_seen = self.total_vectors_seen + 1;
        if !self.use_sampling && self.max_sample_size > 0 && self.total_vectors_seen
            > self.sample_threshold {
            self.thin_out();
            self.use_sampling = true;
        }
        assert(self@.kept =~= old(self)@.base());
        let takes = if self.use_sampling {
            self.vectors.len() < self.max_sample_size && self.total_vectors_seen
                % self.sample_interval == 0
        } else {
            true
        };
        if takes {
            let mut copy: Vec<u32> = Vec::new();
            copy.extend_from_slice(vector);
            assert(copy@ =~= vector@);
            self.vectors.push(copy);
            self.heap_tids.push(heap_tid);
        }
        assert(self@ =~= old(self)@.with((heap_tid, vector@)));
    }
}

proof fn lemma_thinned_push(rows: Seq<VectorRow>, row: VectorRow, max: int, interval: int)
    requires
        0 <= max,
        1 <= interval,
    ensures
        thinned(rows.push(row), max, interval) == if thinned(rows, max, interval).len() < max && (
        rows.len() as int + 1) % interval == 0 {
            thinned(rows, max, interval).push(row)
        } else {
            thinned(rows, max, interval)
        },
{
    let n = rows.len() as int + 1;
    let d = interval;
    assert(n / d == (n - 1) / d + (if n % d == 0 {
        1int
    } else {
        0int
    }) && (n - 1) / d >= 0) by (nonlinear_arith)
        requires
            n > 0,
            d >= 1,
    ;
    let before = thinned(rows, max, d);
    let after = thinned(rows.push(row), max, d);
    assert forall|j: int| 0 <= j < before.len() implies #[trigger] after[j] == before[j] by {
        lemma_thinned_place(n - 1, max, d, j);
    }
    if n % d == 0 {
        let q = (n - 1) / d;
        assert((q + 1) * d == n) by (nonlinear_arith)
            requires
                n % d == 0,
                n / d == q + 1,
                d >= 1,
        ;
    }
    assert(after =~= if before.len() < max && n % d == 0 {
        before.push(row)
    } else {
        before
    });
}

/// After all vectors of a table, exactly its sample is kept, or the whole table where it is not
/// sampled.
pub proof fn law_collected_vectors(rows: Seq<VectorRow>, max: int, threshold: int)
    requires
        0 <= max,
        0 <= threshold,
    ensures
        ({
            let collector = CollectorView::initial(max, threshold).after(rows);
            &&& collector.seen == rows.len()
            &&& collector.use_sampling == (max > 0 && rows.len() > threshold)
            &&& collector.kept == sample_of(rows, max, threshold)
        }),
    decreases rows.len(),
{
    let start = CollectorView::initial(max, threshold);
    lemma_after_keeps_rule(start, rows);
    if rows.len() > 0 {
        let (most, row) = (rows.drop_last(), rows.last());
        law_collected_vectors(most, max, threshold);
        lemma_after_keeps_rule(start, most);
        law_sample_interval_is_positive(max, threshold);
        lemma_thinned_push(most, row, max, start.interval);
        assert(most.push(row) =~= rows);
    } else {
        assert(start.kept =~= rows);
    }
}

/// A sample holds no more than its size, and only rows of the table, in their order.
pub proof fn law_sample_is_part_of_the_table(
    rows: Seq<VectorRow>,
    max: int,
    threshold: int,
    i: int,
    j: int,
)
    requires
        0 < max,
        0 <= threshold < rows.len(),
    ensures
        sample_of(rows, max, threshold).len() <= max,
        0 <= i < j < sample_of(rows, max, threshold).len() ==> exists|a: int, b: int|
            0 <= a < b < rows.len() && sample_of(rows, max, threshold)[i] == #[trigger] rows[a]
                && sample_of(rows, max, threshold)[j] == #[trigger] rows[b],
{
    let d = sample_interval(max, threshold);
    let n = rows.len() as int;
    law_sample_interval_is_positive(max, threshold);
    assert(n / d >= 0) by (nonlinear_arith)
        requires
            n >= 0,
            d >= 1,
    ;
    if 0 <= i < j < sample_of(rows, max, threshold).len() {
        lemma_thinned_place(n, max, d, i);
        lemma_thinned_place(n, max, d, j);
        let (a, b) = ((i + 1) * d - 1, (j + 1) * d - 1);
        assert(a < b) by (nonlinear_arith)
            requires
                a == (i + 1) * d - 1,
                b == (j + 1) * d - 1,
                i < j,
                d >= 1,
        ;
        assert(sample_of(rows, max, threshold)[i] == rows[a]);
        assert(sample_of(rows, max, threshold)[j] == rows[b]);
    }
}

proof fn lemma_after_keeps_rule(collector: CollectorView, rows: Seq<VectorRow>)
    ensures
        collector.after(rows).max == collector.max,
        collector.after(rows).threshold == collector.threshold,
        collector.after(rows).interval == collector.interval,
        collector.after(rows).seen == collector.seen + rows.len(),
    decreases rows.len(),
{
    if rows.len() > 0 {
        lemma_after_keeps_rule(collector, rows.drop_last());
    }
}

/// The interval is the least with which a table as large as the threshold gives no more samples
/// than are wanted.
pub proof fn law_sample_interval_is_the_least_that_suffices(max: int, threshold: int)
    requires
        0 <= max,
        0 <= threshold <= usize::MAX,
        threshold < 0x20_0000_0000_0000,
    ensures
        ({
            let interval = sample_interval(max, threshold);
            &&& interval >= 1
            &&& max == 0 ==> interval == 1
            &&& max > 0 ==> interval * max >= threshold
            &&& interval > 1 ==> (interval - 1) * max < threshold
        }),
{
    if max > 0 && threshold > max {
        law_ceiling_of_quotient(threshold, max);
        let c = over(from_int(threshold), from_int(max)).ceil();
        assert(1 < c <= threshold) by (nonlinear_arith)
            requires
                max * (c - 1) < threshold,
                threshold <= max * c,
                threshold > max,
                max > 0,
        ;
        assert(max * (c - 1) == (c - 1) * max && max * c == c * max) by (nonlinear_arith);
    }
}

/// The sample of a table, told by its rows: all of them while the table is no larger than the
/// threshold or the sample size is zero, and else every `interval`th one in order, for as long
/// as the sample is not full.
pub proof fn law_every_interval_th_row_is_kept(
    rows: Seq<VectorRow>,
    max: int,
    threshold: int,
    j: int,
)
    requires
        0 <= max,
        0 <= threshold <= usize::MAX,
        threshold < 0x20_0000_0000_0000,
        rows.len() <= usize::MAX,
    ensures
        ({
            let kept = CollectorView::initial(max, threshold).after(rows).kept;
            let interval = sample_interval(max, threshold);
            &&& max == 0 || rows.len() <= threshold ==> kept == rows
            &&& max > 0 && rows.len() > threshold ==> {
                &&& kept.len() <= max
                &&& kept.len() * interval <= rows.len()
                &&& kept.len() < max ==> rows.len() < (kept.len() + 1) * interval
                &&& 0 <= j < kept.len() ==> kept[j] == rows[(j + 1) * interval - 1]
            }
        }),
{
    law_collected_vectors(rows, max, threshold);
    law_sample_interval_is_the_least_that_suffices(max, threshold);
    let interval = sample_interval(max, threshold);
    let n = rows.len() as int;
    let whole = n / interval;
    assert(whole * interval <= n < (whole + 1) * interval) by (nonlinear_arith)
        requires
            whole == n / interval,
            interval > 0,
    ;
    let k = min(max, whole);
    assert(k * interval <= whole * interval) by (nonlinear_arith)
        requires
            k <= whole,
            interval > 0,
    ;
    assert(whole >= 0) by (nonlinear_arith)
        requires
            whole == n / interval,
            interval > 0,
            n >= 0,
    ;
}

/// A collector always has an interval to count by.
pub proof fn law_sample_interval_is_positive(max: int, threshold: int)
    ensures
        sample_interval(max, threshold) >= 1,
{
    if max > 0 && threshold > max {
        law_nearest_is_normalized(threshold, 1);
        law_nearest_is_normalized(max, 1);
        law_nearest_is_normalized(from_int(threshold).mant, from_int(max).mant);
        law_positive_rounds_up(over(from_int(threshold), from_int(max)));
    }
}

/// How many vectors of a cluster are kept while its size is estimated.
pub const MAX_CLUSTER_SAMPLES: usize = 100;

/// A number from zero to one, given by its bit pattern, is greater than a double. Nothing is
/// greater than what is no number.
pub open spec fn exceeds(draw: u64, rate: u64) -> bool {
    if rate <= FINITE_LIMIT {
        draw > rate
    } else if rate < NEGATIVE_ZERO {
        false
    } else if rate == NEGATIVE_ZERO {
        draw > 0
    } else {
        rate - NEGATIVE_ZERO <= FINITE_LIMIT
    }
}

/// Whether a row for which a number from zero to one was drawn is part of a sample that is to
/// hold a given fraction of all rows.
pub fn samples_row(draw: u64, rate: u64) -> (r: bool)
    requires
        draw <= ONE_BITS,
    ensures
        r == !exceeds(draw, rate),
{
    if rate <= FINITE_LIMIT {
        draw <= rate
    } else if rate < NEGATIVE_ZERO {
        true
    } else if rate == NEGATIVE_ZERO {
        draw == 0
    } else {
        rate - NEGATIVE_ZERO > FINITE_LIMIT
    }
}

/// Result of the sampling scan phase
pub struct SamplingResult {
    pub cluster_stats: Vec<ClusterStats>,
    pub total_vectors: usize,
}

/// A number that was found in a sample, brought up to the whole table: divided by the rate,
/// in doubles, and cut to an integer.
pub open spec fn scaled_up(count: int, rate: u64) -> int {
    saturated(times(from_int(count), over(from_int(1), decoded(rate))).floor())
}

/// What was found in a sample is divided by the rate and cut to a whole number, up to the
/// rounding of doubles.
pub proof fn law_scaling_divides_by_the_rate(count: int, rate: u64)
    requires
        0 <= count < 0x20_0000_0000_0000,
        0 < rate < 0x7FF0_0000_0000_0000,
        2real * (count as real) / value(decoded(rate)) <= usize::MAX as real,
    ensures
        ({
            let exact = (count as real) / value(decoded(rate));
            let r = scaled_up(count, rate) as real;
            &&& 9007199254740992real * (r - exact) <= 3real * exact
            &&& 9007199254740992real * (exact - r - 1real) <= 3real * exact
        }),
{
    let factor = over(from_int(1), decoded(rate));
    let x = times(from_int(count), factor);
    law_conversion_is_close(count);
    law_conversion_is_close(1);
    law_conversion_is_monotone(count, count);
    law_conversion_is_monotone(1, 1);
    law_decoded_is_normalized(rate);
    law_bit_patterns_are_ordered(0, rate);
    law_bit_patterns_stand_for_numbers(0);
    assert(decoded(rate).mant > 0) by {
        if decoded(rate).mant == 0 {
            let t = two_to(decoded(rate).exp);
            assert(0real * t == 0real) by (nonlinear_arith);
        }
    }
    law_results_are_normalized(from_int(1), decoded(rate));
    law_results_are_normalized(from_int(count), factor);
    law_product_with_quotient_is_close(from_int(count), from_int(1), decoded(rate));
    law_rounding_is_exact(x);
    lemma_value_sign(x);
    let (c, v) = (count as real, value(decoded(rate)));
    assert(c * 1real / v == c / v && 2real * c / v == 2real * (c / v)) by (nonlinear_arith)
        requires
            v > 0real,
    ;
    assert(0 <= x.floor() + 1);
    assert(x.floor() <= usize::MAX);
}

/// Where both are numbers that are not negative, a row is part of the sample exactly if the
/// number that was drawn for it is no greater than the rate.
pub proof fn law_sample_goes_by_the_drawn_number(draw: u64, rate: u64)
    requires
        draw <= 0x3FF0_0000_0000_0000,
    ensures
        rate < 0x7FF0_0000_0000_0000 ==> (exceeds(draw, rate) <==> value(decoded(draw)) > value(
            decoded(rate),
        )),
        rate == 0x7FF0_0000_0000_0000 ==> !exceeds(draw, rate),
        0x7FF0_0000_0000_0000 < rate < 0x8000_0000_0000_0000 || rate > 0xFFF0_0000_0000_0000
            ==> !exceeds(draw, rate),
        rate == 0x8000_0000_0000_0000 ==> (exceeds(draw, rate) <==> value(decoded(draw)) > 0real),
        0x8000_0000_0000_0000 < rate <= 0xFFF0_0000_0000_0000 ==> exceeds(draw, rate),
{
    law_bit_patterns_stand_for_numbers(0);
    if rate < 0x7FF0_0000_0000_0000 {
        if draw < rate {
            law_bit_patterns_are_ordered(draw, rate);
        } else if rate < draw {
            law_bit_patterns_are_ordered(rate, draw);
        }
    }
    if draw > 0 {
        law_bit_patterns_are_ordered(0, draw);
    }
}

/// What was found more often in a sample is no rarer in the whole table.
pub proof fn law_scaling_keeps_order(smaller: int, larger: int, rate: u64)
    requires
        0 <= smaller <= larger,
        0 < rate < FINITE_LIMIT,
    ensures
        scaled_up(smaller, rate) <= scaled_up(larger, rate),
{
    law_conversion_is_monotone(smaller, larger);
    law_conversion_is_monotone(1, 1);
    law_decoded_is_normalized(rate);
    law_results_are_normalized(from_int(1), decoded(rate));
    let factor = over(from_int(1), decoded(rate));
    let (a, b) = (from_int(smaller), from_int(larger));
    law_times_is_monotone(a, b, factor);
    law_results_are_normalized(a, factor);
    law_results_are_normalized(b, factor);
    law_rounding_is_monotone(times(a, factor), times(b, factor));
}

impl SamplingResult {
    /// No cluster holds more than was seen.
    pub open spec fn wf(self) -> bool {
        sum(counts(self.cluster_stats@)) <= self.total_vectors
    }

    /// Nothing has been sampled.
    pub fn new(num_clusters: usize) -> (r: SamplingResult)
        ensures
            r.wf(),
            r.total_vectors == 0,
            r.cluster_stats@.len() == num_clusters,
            forall|i: int|
                0 <= i < num_clusters ==> {
                    &&& (#[trigger] r.cluster_stats@[i]).cluster_id == 0
                    &&& r.cluster_stats@[i].count == 0
                    &&& r.cluster_stats@[i].sample_vectors@.len() == 0
                },
    {
        let mut cluster_stats: Vec<ClusterStats> = Vec::new();
        for i in 0..num_clusters
            invariant
                cluster_stats@.len() == i,
                forall|k: int|
                    0 <= k < i ==> {
                        &&& (#[trigger] cluster_stats@[k]).cluster_id == 0
                        &&& cluster_stats@[k].count == 0
                        &&& cluster_stats@[k].sample_vectors@.len() == 0
                    },
        {
            cluster_stats.push(ClusterStats::new());
        }
        proof {
            lemma_zeros_sum(counts(cluster_stats@));
        }
        SamplingResult { cluster_stats, total_vectors: 0 }
    }

    /// Counts a vector of the sample for the cluster that it is nearest to.
    pub fn record(&mut self, cluster_id: usize, vector: &[u32])
        requires
            old(self).wf(),
            old(self).total_vectors < usize::MAX,
        ensures
            final(self).wf(),
            final(self).total_vectors == old(self).total_vectors + 1,
            final(self).cluster_stats@.len() == old(self).cluster_stats@.len(),
            forall|i: int|
                0 <= i < old(self).cluster_stats@.len() && i != cluster_id
                    ==> #[trigger] final(self).cluster_stats@[i] == old(self).cluster_stats@[i],
            cluster_id < old(self).cluster_stats@.len() ==> {
                let before = old(self).cluster_stats@[cluster_id as int];
                let after = final(self).cluster_stats@[cluster_id as int];
                &&& after.cluster_id == before.cluster_id
                &&& after.count == before.count + 1
                &&& if before.sample_vectors@.len() < MAX_CLUSTER_SAMPLES {
                    &&& after.sample_vectors@.len() == before.sample_vectors@.len() + 1
                    &&& after.sample_vectors@.drop_last() == before.sample_vectors@
                    &&& after.sample_vectors@.last()@ == vector@
                } else {
                    after.sample_vectors@ == before.sample_vectors@
                }
                &&& after.sample_vectors@.len() == before.sample_vectors@.len() + if (
                before.sample_vectors@.len() < 100) {
                    1int
                } else {
                    0int
                }
            },
    {
        if cluster_id < self.cluster_stats.len() {
            let ghost before = counts(self.cluster_stats@);
            proof {
                lemma_term_bounded(before, cluster_id as int);
            }
            self.cluster_stats[cluster_id].add_vector(vector, MAX_CLUSTER_SAMPLES);
            proof {
                let after = counts(self.cluster_stats@);
                assert(after =~= before.update(
                    cluster_id as int,
                    (before[cluster_id as int] + 1) as usize,
                ));
                lemma_sum_update(before, cluster_id as int, after[cluster_id as int]);
            }
        }
        self.total_vectors = self.total_vectors + 1;
    }

    /// Scales up counts based on sample rate, where only a part of the rows was sampled.
    pub fn scale(&mut self, sample_rate: u64)
        ensures
            final(self).cluster_stats@.len() == old(self).cluster_stats@.len(),
            ({
                let part = 0 < sample_rate < ONE_BITS;
                &&& final(self).total_vectors == if part {
                    scaled_up(old(self).total_vectors as int, sample_rate)
                } else {
                    old(self).total_vectors as int
                }
                &&& forall|i: int|
                    0 <= i < old(self).cluster_stats@.len() ==> {
                        let before = old(self).cluster_stats@[i];
                        let after = #[trigger] final(self).cluster_stats@[i];
                        &&& after.cluster_id == before.cluster_id
                        &&& after.sample_vectors@ == before.sample_vectors@
                        &&& after.count == if part {
                            scaled_up(before.count as int, sample_rate)
                        } else {
                            before.count as int
                        }
                    }
            }),
    {
        if 0 < sample_rate && sample_rate < ONE_BITS {
            let scale_factor = Binary64::from_usize(1).over(Binary64::from_bits(sample_rate));
            let ghost start = self.cluster_stats@;
            let num_clusters: usize = self.cluster_stats.len();
            for i in 0..num_clusters
                invariant
                    num_clusters == start.len(),
                    -2000 <= scale_factor.exp <= 2000,
                    0 < sample_rate < ONE_BITS,
                    scale_factor.wf(),
                    scale_factor@ == over(from_int(1), decoded(sample_rate)),
                    self.total_vectors == old(self).total_vectors,
                    start == old(self).cluster_stats@,
                    self.cluster_stats@.len() == start.len(),
                    forall|k: int|
                        0 <= k < start.len() ==> {
                            let after = #[trigger] self.cluster_stats@[k];
                            &&& after.cluster_id == start[k].cluster_id
                            &&& after.sample_vectors@ == start[k].sample_vectors@
                            &&& after.count == if k < i {
                                scaled_up(start[k].count as int, sample_rate)
                            } else {
                                start[k].count as int
                            }
                        },
            {
                let count: usize = self.cluster_stats[i].count;
                let scaled: usize = Binary64::from_usize(count).times(
                    scale_factor,
                ).floor_to_usize();
                self.cluster_stats[i].count = scaled;
            }
            self.total_vectors = Binary64::from_usize(self.total_vectors).times(
                scale_factor,
            ).floor_to_usize();
        }
    }
}

} // verus!
