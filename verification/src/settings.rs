//! The settings that an administrator can change, and what follows from their values.
use crate::accuracy::{law_conversion_is_close, law_rounding_is_exact, law_times_is_close, lemma_ordered_products, lemma_value_sign, value};
use crate::binary64::{decoded, from_int, saturated, times, Binary64, FINITE_LIMIT, NEGATIVE_ZERO};
use crate::double_order::{law_conversion_is_monotone, law_decoded_is_normalized, law_results_are_normalized, law_rounding_is_monotone, law_times_is_monotone};
use vstd::math::max;
use vstd::prelude::*;

verus! {

/// A setting that holds a whole number.
#[derive(Clone, Copy, Debug, PartialEq, Eq, Structural)]
pub enum IntSetting {
    QuerySearchListSize,
    QueryRescore,
    ParallelInitialStartNodesCount,
    MinVectorsForParallelBuild,
    ForceParallelWorkers,
    NumClusters,
    ClusteringMaxSampleSize,
    ClusteringSampleThreshold,
}

/// Who may change a setting.
#[derive(Clone, Copy, Debug, PartialEq, Eq, Structural)]
pub enum SettingContext {
    /// Every user.
    Userset,
    /// Superusers only.
    Suset,
}

/// The range of a setting, its value at the start, and who may change it.
#[derive(Clone, Copy, Debug, PartialEq, Eq, Structural)]
pub struct IntRange {
    pub initial: i32,
    pub min: i32,
    pub max: i32,
    pub context: SettingContext,
}

pub open spec fn user_range(initial: i32, min: i32, max: i32) -> IntRange {
    IntRange { initial, min, max, context: SettingContext::Userset }
}

pub open spec fn superuser_range(initial: i32, min: i32, max: i32) -> IntRange {
    IntRange { initial, min, max, context: SettingContext::Suset }
}

impl IntSetting {
    pub open spec fn spec_range(self) -> IntRange {
        match self {
            IntSetting::QuerySearchListSize => user_range(100, 1, 70000),
            IntSetting::QueryRescore => user_range(50, 0, 1000),
            IntSetting::ParallelInitialStartNodesCount => superuser_range(1024, 1, 10000),
            IntSetting::MinVectorsForParallelBuild => superuser_range(65536, 1, i32::MAX),
            IntSetting::ForceParallelWorkers => superuser_range((-1) as i32, (-1) as i32, 1024),
            IntSetting::NumClusters => user_range(0, 0, 1024),
            IntSetting::ClusteringMaxSampleSize => user_range(100000, 0, i32::MAX),
            IntSetting::ClusteringSampleThreshold => user_range(1000000, 0, i32::MAX),
        }
    }

    pub fn range(&self) -> (r: IntRange)
        ensures
            r == self.spec_range(),
    {
        let (initial, min, max, context) = match self {
            IntSetting::QuerySearchListSize => (100, 1, 70000, SettingContext::Userset),
            IntSetting::QueryRescore => (50, 0, 1000, SettingContext::Userset),
            IntSetting::ParallelInitialStartNodesCount => (1024, 1, 10000, SettingContext::Suset),
            IntSetting::MinVectorsForParallelBuild => (65536, 1, i32::MAX, SettingContext::Suset),
            IntSetting::ForceParallelWorkers => (-1, -1, 1024, SettingContext::Suset),
            IntSetting::NumClusters => (0, 0, 1024, SettingContext::Userset),
            IntSetting::ClusteringMaxSampleSize => (100000, 0, i32::MAX, SettingContext::Userset),
            IntSetting::ClusteringSampleThreshold => (
                1000000,
                0,
                i32::MAX,
                SettingContext::Userset,
            ),
        };
        IntRange { initial, min, max, context }
    }

    /// The name under which the setting is registered.
    pub fn name(&self) -> (r: &'static str)
        ensures
            r@ == match self {
                IntSetting::QuerySearchListSize => "diskann.query_search_list_size"@,
                IntSetting::QueryRescore => "diskann.query_rescore"@,
                IntSetting::ParallelInitialStartNodesCount =>
                    "diskann.parallel_initial_start_nodes_count"@,
                IntSetting::MinVectorsForParallelBuild => "diskann.min_vectors_for_parallel_build"@,
                IntSetting::ForceParallelWorkers => "diskann.force_parallel_workers"@,
                IntSetting::NumClusters => "diskann.num_clusters"@,
                IntSetting::ClusteringMaxSampleSize => "diskann.clustering_max_sample_size"@,
                IntSetting::ClusteringSampleThreshold => "diskann.clustering_sample_threshold"@,
            },
    {
        match self {
            IntSetting::QuerySearchListSize => "diskann.query_search_list_size",
            IntSetting::QueryRescore => "diskann.query_rescore",
            IntSetting::ParallelInitialStartNodesCount =>
                "diskann.parallel_initial_start_nodes_count",
            IntSetting::MinVectorsForParallelBuild => "diskann.min_vectors_for_parallel_build",
            IntSetting::ForceParallelWorkers => "diskann.force_parallel_workers",
            IntSetting::NumClusters => "diskann.num_clusters",
            IntSetting::ClusteringMaxSampleSize => "diskann.clustering_max_sample_size",
            IntSetting::ClusteringSampleThreshold => "diskann.clustering_sample_threshold",
        }
    }
}

/// Every setting that holds a whole number, in the order in which they are registered.
pub fn int_settings() -> (r: Vec<IntSetting>)
    ensures
        r@ == seq![
            IntSetting::QuerySearchListSize,
            IntSetting::QueryRescore,
            IntSetting::ParallelInitialStartNodesCount,
            IntSetting::MinVectorsForParallelBuild,
            IntSetting::ForceParallelWorkers,
            IntSetting::NumClusters,
            IntSetting::ClusteringMaxSampleSize,
            IntSetting::ClusteringSampleThreshold,
        ],
{
    let r = vec![
        IntSetting::QuerySearchListSize,
        IntSetting::QueryRescore,
        IntSetting::ParallelInitialStartNodesCount,
        IntSetting::MinVectorsForParallelBuild,
        IntSetting::ForceParallelWorkers,
        IntSetting::NumClusters,
        IntSetting::ClusteringMaxSampleSize,
        IntSetting::ClusteringSampleThreshold,
    ];
    r
}

/// Every setting starts inside its range.
pub proof fn law_initial_values_in_range(setting: IntSetting)
    ensures
        setting.spec_range().min <= setting.spec_range().initial <= setting.spec_range().max,
{
}

/// The name of the one setting that holds a fraction.
pub fn flush_interval_name() -> (r: &'static str)
    ensures
        r@ == "diskann.parallel_flush_interval"@,
{
    "diskann.parallel_flush_interval"
}

/// The fraction of all vectors between two flushes at the start, 0.05, as the bit pattern of
/// a double.
pub const FLUSH_INTERVAL_INITIAL: u64 = 0x3FA9_9999_9999_999A;

/// Its least value, 0.0.
pub const FLUSH_INTERVAL_MIN: u64 = 0;

/// Its greatest value, 1.0.
pub const FLUSH_INTERVAL_MAX: u64 = 0x3FF0_0000_0000_0000;

/// A number of vectors times a fraction, cut to a whole number as a conversion from a double
/// does: nothing for a negative product or one that is not a number, and the greatest
/// possible where the product is too great.
pub open spec fn fraction_of(total: int, rate: u64) -> int {
    if rate >= NEGATIVE_ZERO || rate > FINITE_LIMIT {
        0
    } else if rate == FINITE_LIMIT {
        if total == 0 {
            0
        } else {
            usize::MAX as int
        }
    } else {
        saturated(times(from_int(total), decoded(rate)).floor())
    }
}

/// A fraction of a number of vectors is their product, cut to a whole number, up to the
/// rounding of doubles.
pub proof fn law_fraction_is_the_product(total: int, rate: u64)
    requires
        0 <= total < 0x20_0000_0000_0000,
        rate < 0x7FF0_0000_0000_0000,
        2real * (total as real) * value(decoded(rate)) <= usize::MAX as real,
    ensures
        ({
            let exact = (total as real) * value(decoded(rate));
            let r = fraction_of(total, rate) as real;
            &&& 9007199254740992real * (r - exact) <= exact
            &&& 9007199254740992real * (exact - r - 1real) <= exact
        }),
{
    let x = times(from_int(total), decoded(rate));
    law_conversion_is_close(total);
    law_conversion_is_monotone(total, total);
    law_decoded_is_normalized(rate);
    law_results_are_normalized(from_int(total), decoded(rate));
    law_times_is_close(from_int(total), decoded(rate), -1, 0);
    law_rounding_is_exact(x);
    lemma_value_sign(from_int(total));
    lemma_value_sign(decoded(rate));
    let (t, v) = (total as real, value(decoded(rate)));
    lemma_ordered_products(0real, t, v);
    assert(0real * v == 0real);
    assert(2real * t * v == 2real * (t * v)) by (nonlinear_arith);
    lemma_value_sign(x);
    assert(0 <= x.floor() + 1);
    assert(x.floor() <= usize::MAX);
}

/// A fraction that is negative or no number gives nothing, and an infinite one as much as there
/// can be of anything.
pub proof fn law_fraction_outside_of_the_numbers(total: int, rate: u64)
    requires
        0 <= total,
    ensures
        rate >= 0x8000_0000_0000_0000 ==> fraction_of(total, rate) == 0,
        0x7FF0_0000_0000_0000 < rate < 0x8000_0000_0000_0000 ==> fraction_of(total, rate) == 0,
        rate == 0x7FF0_0000_0000_0000 ==> fraction_of(total, rate) == if total == 0 {
            0
        } else {
            usize::MAX as int
        },
{
}

/// A fraction of more vectors is no smaller number.
pub proof fn law_fraction_grows_with_total(smaller: int, larger: int, rate: u64)
    requires
        0 <= smaller <= larger,
    ensures
        fraction_of(smaller, rate) <= fraction_of(larger, rate),
{
    if rate < FINITE_LIMIT {
        law_conversion_is_monotone(smaller, larger);
        law_decoded_is_normalized(rate);
        let (a, b) = (from_int(smaller), from_int(larger));
        law_times_is_monotone(a, b, decoded(rate));
        law_results_are_normalized(a, decoded(rate));
        law_results_are_normalized(b, decoded(rate));
        law_rounding_is_monotone(times(a, decoded(rate)), times(b, decoded(rate)));
    }
}

/// After how many vectors the neighbor cache is flushed: a fraction of all, but at least one.
pub fn flush_rate(total_vectors: usize, rate: u64) -> (r: usize)
    ensures
        r == max(fraction_of(total_vectors as int, rate), 1),
{
    let result: usize = if rate >= NEGATIVE_ZERO || rate > FINITE_LIMIT {
        0
    } else if rate == FINITE_LIMIT {
        if total_vectors == 0 {
            0
        } else {
            usize::MAX
        }
    } else {
        Binary64::from_usize(total_vectors).times(Binary64::from_bits(rate)).floor_to_usize()
    };
    if result < 1 {
        1
    } else {
        result
    }
}

/// How many nodes are processed before parallel workers start.
pub fn initial_start_nodes_count(setting: i32) -> (r: usize)
    requires
        0 <= setting,
    ensures
        r == setting,
{
    setting as usize
}

} // verus!
