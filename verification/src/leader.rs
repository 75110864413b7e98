//! The process that leads a clustered build: what it decides before the build, how it sets
//! up its workers, and the order in which it does so.
use crate::assignments::{chunk, chunk_size, chunks, law_chunks_tile_the_cluster, law_pieces_have_one_length, lemma_chunk_size, AssignmentsView, WorkerAssignment, WorkerAssignments, MAX_WORKERS};
use crate::centroids::{centroids_bytes, centroids_size};
use crate::distribution::{calculate_queue_capacities, calculate_worker_distribution, counts, distribution, each_worker_once, lists, queue_capacity, law_each_cluster_has_a_worker, law_every_worker_is_placed_once, law_queue_capacity_bounds, law_queue_grows_with_the_share, ClusterStats};
use crate::queue::{entry_bytes, estimate_queues_size, estimated_bytes};
use crate::k_means::{has_number, is_nearest};
use crate::lloyd::{assign_each, nearest_each};
use crate::shared::StorageType;
use crate::start_nodes::MAX_CLUSTERS;
use crate::sums::{law_occurrences_are_counted, lemma_sum_update, lemma_zeros_sum, occurrences, sum, total};
use vstd::math::{max, min};
use vstd::prelude::*;

verus! {

/// Fewer clusters than this are not built as clusters.
pub const MIN_CLUSTERS: usize = 2;

/// Why a build with clusters is refused.
#[derive(Clone, Copy, Debug, PartialEq, Eq, Structural)]
pub enum ClusterCountError {
    /// num_clusters must be at least 2 for clustering
    TooFew { num_clusters: usize },
    /// num_clusters exceeds maximum allowed value of 64
    TooMany { num_clusters: usize },
}

/// Checks how many clusters were asked for.
pub fn check_num_clusters(num_clusters: usize) -> (r: Result<(), ClusterCountError>)
    ensures
        r == if num_clusters < MIN_CLUSTERS {
            Err::<(), ClusterCountError>(ClusterCountError::TooFew { num_clusters })
        } else if num_clusters > MAX_CLUSTERS {
            Err(ClusterCountError::TooMany { num_clusters })
        } else {
            Ok(())
        },
        r is Ok <==> 2 <= num_clusters <= 64,
{
    if num_clusters < MIN_CLUSTERS {
        Err(ClusterCountError::TooFew { num_clusters })
    } else if num_clusters > MAX_CLUSTERS {
        Err(ClusterCountError::TooMany { num_clusters })
    } else {
        Ok(())
    }
}

/// How many clusters are formed: as many as were asked for, but no more than vectors.
pub fn actual_num_clusters(num_clusters: usize, num_vectors: usize) -> (r: usize)
    ensures
        r == min(num_clusters as int, num_vectors as int),
{
    if num_clusters < num_vectors {
        num_clusters
    } else {
        num_vectors
    }
}

/// How often each cluster was chosen. A choice that is no cluster counts for none.
pub open spec fn sizes_of(assignments: Seq<usize>, num_clusters: int) -> Seq<usize> {
    Seq::new(num_clusters as nat, |c: int| occurrences(assignments, c) as usize)
}

/// The size of each cluster, from the cluster that each vector was given to.
pub fn count_cluster_sizes(assignments: &[usize], num_clusters: usize) -> (r: Vec<usize>)
    ensures
        r@ == sizes_of(assignments@, num_clusters as int),
        forall|c: int|
            0 <= c < num_clusters ==> #[trigger] r@[c] == occurrences(assignments@, c),
{
    let mut r: Vec<usize> = Vec::new();
    for c in 0..num_clusters
        invariant
            r@.len() == c,
            forall|k: int| 0 <= k < c ==> #[trigger] r@[k] == 0,
    {
        r.push(0);
    }
    for i in 0..assignments.len()
        invariant
            r@.len() == num_clusters,
            i <= assignments@.len() <= usize::MAX,
            forall|k: int|
                0 <= k < num_clusters ==> #[trigger] r@[k] == occurrences(
                    assignments@.take(i as int),
                    k,
                ),
    {
        proof {
            let a = assignments@;
            assert(a.take(i + 1).drop_last() =~= a.take(i as int));
            crate::sums::lemma_occurrences_bounded(a.take(i as int), a[i as int] as int);
        }
        let chosen: usize = assignments[i];
        if chosen < num_clusters {
            let n: usize = r[chosen];
            r[chosen] = n + 1;
        }
    }
    assert(assignments@.take(assignments@.len() as int) =~= assignments@);
    assert(r@ =~= sizes_of(assignments@, num_clusters as int));
    r
}

/// The cluster of each vector and the sizes of the clusters, given the squared distances of each
/// vector to all centroids.
pub fn perform_clustering(distances: &[Vec<u32>], num_clusters: usize) -> (r: (
    Vec<usize>,
    Vec<usize>,
))
    requires
        num_clusters > 0,
        forall|i: int|
            0 <= i < distances@.len() ==> (#[trigger] distances@[i])@.len() == num_clusters,
    ensures
        r.0@ == nearest_each(distances@),
        r.1@ == sizes_of(r.0@, num_clusters as int),
        sum(r.1@) == distances@.len(),
        r.0@.len() == distances@.len(),
        forall|i: int|
            0 <= i < r.0@.len() && has_number((#[trigger] distances@[i])@) ==> is_nearest(
                distances@[i]@,
                r.0@[i] as int,
            ),
        forall|c: int|
            0 <= c < num_clusters ==> #[trigger] r.1@[c] == r.0@.to_multiset().count(c as usize),
{
    let assignments = assign_each(distances, num_clusters);
    let sizes = count_cluster_sizes(assignments.as_slice(), num_clusters);
    assert(assignments.len() <= usize::MAX);
    proof {
        law_sizes_add_up(assignments@, num_clusters as int);
        assert forall|c: int| 0 <= c < num_clusters implies #[trigger] sizes@[c]
            == assignments@.to_multiset().count(c as usize) by {
            law_occurrences_are_counted(assignments@, c as usize);
        }
    }
    (assignments, sizes)
}

/// The sizes of all clusters add up to the number of vectors.
pub proof fn law_sizes_add_up(assignments: Seq<usize>, num_clusters: int)
    requires
        0 <= num_clusters,
        assignments.len() <= usize::MAX,
        forall|i: int| 0 <= i < assignments.len() ==> #[trigger] assignments[i] < num_clusters,
    ensures
        sum(sizes_of(assignments, num_clusters)) == assignments.len(),
    decreases assignments.len(),
{
    let sizes = sizes_of(assignments, num_clusters);
    if assignments.len() == 0 {
        assert forall|i: int| 0 <= i < sizes.len() implies #[trigger] sizes[i] == 0 by {}
        lemma_zeros_sum(sizes);
    } else {
        let before = assignments.drop_last();
        let last = assignments.last() as int;
        assert(forall|i: int| 0 <= i < before.len() ==> #[trigger] before[i] == assignments[i]);
        law_sizes_add_up(before, num_clusters);
        let smaller = sizes_of(before, num_clusters);
        assert(assignments[assignments.len() - 1] < num_clusters);
        crate::sums::lemma_occurrences_bounded(before, last);
        assert(sizes =~= smaller.update(last, (smaller[last] + 1) as usize)) by {
            assert forall|c: int| 0 <= c < num_clusters implies #[trigger] sizes[c]
                == smaller.update(last, (smaller[last] + 1) as usize)[c] by {
                crate::sums::lemma_occurrences_bounded(before, c);
            }
        }
        lemma_sum_update(smaller, last, (smaller[last] + 1) as usize);
    }
}

/// The size of a cluster is the number of vectors that were given to it.
pub proof fn law_sizes_count_vectors(assignments: Seq<usize>, num_clusters: int, cluster: int)
    requires
        0 <= cluster < num_clusters <= usize::MAX,
        assignments.len() <= usize::MAX,
    ensures
        sizes_of(assignments, num_clusters).len() == num_clusters,
        sizes_of(assignments, num_clusters)[cluster] == assignments.to_multiset().count(
            cluster as usize,
        ),
{
    law_occurrences_are_counted(assignments, cluster as usize);
    crate::sums::lemma_occurrences_bounded(assignments, cluster);
}

/// What decides how many parallel workers a build asks for.
#[derive(Clone, Copy, Debug, PartialEq, Eq, Structural)]
pub struct WorkerPolicy {
    /// Parallel builds were compiled in.
    pub build_parallel: bool,
    pub has_labels: bool,
    pub storage_type: StorageType,
    /// The number of workers that is forced, if it is not negative.
    pub forced_workers: i32,
    pub heap_tuples: usize,
    pub min_vectors_for_parallel_build: usize,
    /// The number of workers that the server planned for.
    pub planned_workers: i32,
}

impl WorkerPolicy {
    pub open spec fn spec_workers(self) -> usize {
        if !self.build_parallel || self.has_labels || self.storage_type
            != StorageType::SbqCompression {
            0
        } else if self.forced_workers >= 0 {
            self.forced_workers as usize
        } else if self.heap_tuples >= self.min_vectors_for_parallel_build {
            self.planned_workers as usize
        } else {
            0
        }
    }

    /// How many parallel workers the build asks for. Only an index of compressed vectors
    /// without labels is built in parallel.
    pub fn workers(&self) -> (r: usize)
        ensures
            r == self.spec_workers(),
            self.build_parallel && !self.has_labels && self.storage_type
                == StorageType::SbqCompression && self.forced_workers >= 0 ==> r
                == self.forced_workers,
    {
        if self.build_parallel && !self.has_labels && self.storage_type
            == StorageType::SbqCompression {
            if self.forced_workers >= 0 {
                self.forced_workers as usize
            } else if self.heap_tuples >= self.min_vectors_for_parallel_build {
                self.planned_workers as usize
            } else {
                0
            }
        } else {
            0
        }
    }
}

/// A forced number of workers that is not negative holds for every index of compressed vectors
/// without labels, whatever the size of the table and the planned number. Without one, the
/// planned number holds from the least size on that is worth it, and there are no workers
/// below. No other index is built in parallel.
pub proof fn law_forced_workers_come_first(policy: WorkerPolicy)
    ensures
        ({
            let parallel = policy.build_parallel && !policy.has_labels && policy.storage_type
                == StorageType::SbqCompression;
            let workers = policy.spec_workers();
            &&& parallel && policy.forced_workers >= 0 ==> workers == policy.forced_workers
            &&& parallel && policy.forced_workers < 0 && policy.heap_tuples
                >= policy.min_vectors_for_parallel_build && policy.planned_workers >= 0
                ==> workers == policy.planned_workers
            &&& parallel && policy.forced_workers < 0 && policy.heap_tuples
                < policy.min_vectors_for_parallel_build ==> workers == 0
            &&& !parallel ==> workers == 0
        }),
{
}

/// Two policies that force the same number of workers ask for the same number, however the
/// tables and the plans differ.
pub proof fn law_forced_workers_ignore_the_table(
    policy: WorkerPolicy,
    heap_tuples: usize,
    min_vectors: usize,
    planned: i32,
)
    requires
        policy.forced_workers >= 0,
    ensures
        (WorkerPolicy {
            heap_tuples,
            min_vectors_for_parallel_build: min_vectors,
            planned_workers: planned,
            ..policy
        }).spec_workers() == policy.spec_workers(),
{
}

/// How the clusters of an index are built.
#[derive(Clone, Copy, Debug, PartialEq, Eq, Structural)]
pub enum BuildKind {
    Parallel { workers: usize },
    Sequential,
}

/// How an index of `actual` clusters is built for which `num_clusters` were asked for: in
/// parallel with at least one worker and two clusters.
pub fn build_index_with_clustering(num_clusters: usize, actual: usize, policy: WorkerPolicy) -> (r:
    Result<BuildKind, ClusterCountError>)
    ensures
        r == if num_clusters < MIN_CLUSTERS {
            Err::<BuildKind, ClusterCountError>(ClusterCountError::TooFew { num_clusters })
        } else if num_clusters > MAX_CLUSTERS {
            Err(ClusterCountError::TooMany { num_clusters })
        } else if policy.spec_workers() > 0 && actual > 1 {
            Ok(BuildKind::Parallel { workers: policy.spec_workers() })
        } else {
            Ok(BuildKind::Sequential)
        },
        r is Ok <==> 2 <= num_clusters <= 64,
        2 <= num_clusters <= 64 && actual > 1 && policy.build_parallel && !policy.has_labels
            && policy.storage_type == StorageType::SbqCompression && policy.forced_workers > 0
            ==> (r matches Ok(BuildKind::Parallel { workers }) && workers
            == policy.forced_workers),
        2 <= num_clusters <= 64 && (actual <= 1 || policy.forced_workers == 0) ==> r == Ok::<
            BuildKind,
            ClusterCountError,
        >(BuildKind::Sequential),
{
    match check_num_clusters(num_clusters) {
        Err(error) => Err(error),
        Ok(()) => {
            let workers: usize = policy.workers();
            if workers > 0 && actual > 1 {
                Ok(BuildKind::Parallel { workers })
            } else {
                Ok(BuildKind::Sequential)
            }
        },
    }
}

/// What a parallel build is set up with.
pub struct BuildPlan {
    pub total_vectors: usize,
    pub cluster_stats: Vec<ClusterStats>,
    pub queue_capacities: Vec<usize>,
    /// The largest of the capacities.
    pub max_capacity: usize,
    pub num_workers: usize,
    pub worker_distribution: Vec<Vec<usize>>,
    pub cluster_queues_size: usize,
    pub centroids_size: usize,
}

/// The capacities of the queues of clusters of given sizes.
pub open spec fn capacities(sizes: Seq<usize>, base: int) -> Seq<usize> {
    Seq::new(sizes.len(), |i: int| queue_capacity(sizes[i] as int, sum(sizes), base) as usize)
}

/// The largest of some numbers, or a given one if there are none.
pub open spec fn largest_or(s: Seq<usize>, other: usize) -> usize
    decreases s.len(),
{
    if s.len() == 0 {
        other
    } else if s.len() == 1 {
        s[0]
    } else {
        max(largest_or(s.drop_last(), other) as int, s.last() as int) as usize
    }
}

/// The largest of some numbers is one of them, and none is larger; where there are none, it is
/// the given one.
pub proof fn law_largest_of_all(s: Seq<usize>, other: usize)
    ensures
        forall|i: int| 0 <= i < s.len() ==> #[trigger] s[i] <= largest_or(s, other),
        s.len() > 0 ==> s.contains(largest_or(s, other)),
        s.len() == 0 ==> largest_or(s, other) == other,
    decreases s.len(),
{
    if s.len() == 1 {
        assert(s.contains(s[0]));
    } else if s.len() > 1 {
        let before = s.drop_last();
        law_largest_of_all(before, other);
        assert(forall|i: int| 0 <= i < before.len() ==> #[trigger] s[i] == before[i]);
        let most = largest_or(before, other);
        let i = choose|i: int| 0 <= i < before.len() && before[i] == most;
        assert(s[i] == most && s[s.len() - 1] == s.last());
        assert(s.contains(largest_or(s, other)));
    }
}

/// The capacities of the queues follow the shares of the clusters: each is `base * (1 + 5 * size
/// / total)`, cut to a whole number, up to the rounding of doubles, and `base` where there are
/// no vectors.
pub proof fn law_capacities_follow_the_shares(sizes: Seq<usize>, base: int, i: int)
    requires
        0 <= i < sizes.len(),
        sum(sizes) < 0x20_0000_0000_0000,
        0 <= base < 0x100_0000_0000,
        10 * base <= usize::MAX,
    ensures
        capacities(sizes, base).len() == sizes.len(),
        sum(sizes) == 0 ==> capacities(sizes, base)[i] == base,
        sum(sizes) > 0 ==> -65 * sum(sizes) <= 64 * (capacities(sizes, base)[i] * sum(sizes) - base
            * (sum(sizes) + 5 * sizes[i])) <= sum(sizes),
        base <= capacities(sizes, base)[i] <= 10 * base,
{
    crate::sums::lemma_term_bounded(sizes, i);
    law_queue_capacity_bounds(sizes[i] as int, sum(sizes), base);
    if sum(sizes) > 0 {
        law_queue_grows_with_the_share(sizes[i] as int, sum(sizes), base);
    }
}

fn largest_of(s: &Vec<usize>, other: usize) -> (r: usize)
    ensures
        r == largest_or(s@, other),
{
    if s.len() == 0 {
        return other;
    }
    let mut r: usize = s[0];
    assert(s@.take(1)[0] == s@[0]);
    for i in 1..s.len()
        invariant
            s@.len() > 0,
            i >= 1,
            r == largest_or(s@.take(i as int), other),
    {
        if s[i] > r {
            r = s[i];
        }
        assert(s@.take(i + 1).drop_last() =~= s@.take(i as int));
    }
    assert(s@.take(s@.len() as int) =~= s@);
    r
}

/// Plans a parallel build of clusters of given sizes.
pub fn plan_parallel_build(
    cluster_sizes: &[usize],
    workers: usize,
    queue_capacity: usize,
    num_dimensions: usize,
    cv_size: usize,
) -> (r: BuildPlan)
    requires
        cluster_sizes@.len() > 0,
        sum(cluster_sizes@) <= usize::MAX,
        10 * queue_capacity <= usize::MAX,
        entry_bytes(num_dimensions as int) <= usize::MAX,
        estimated_bytes(
            capacities(cluster_sizes@, queue_capacity as int),
            num_dimensions as int,
            cv_size as int,
        ) <= usize::MAX,
        centroids_bytes(cluster_sizes@.len() as int, num_dimensions as int) <= usize::MAX,
    ensures
        r.total_vectors == sum(cluster_sizes@),
        counts(r.cluster_stats@) == cluster_sizes@,
        forall|i: int|
            0 <= i < cluster_sizes@.len() ==> (#[trigger] r.cluster_stats@[i]).cluster_id == i
                && r.cluster_stats@[i].sample_vectors@.len() == 0,
        r.queue_capacities@ == capacities(cluster_sizes@, queue_capacity as int),
        r.max_capacity == largest_or(r.queue_capacities@, queue_capacity),
        forall|i: int|
            0 <= i < r.queue_capacities@.len() ==> #[trigger] r.queue_capacities@[i]
                <= r.max_capacity,
        r.queue_capacities@.contains(r.max_capacity),
        r.num_workers == max(
            min(workers as int, MAX_WORKERS as int),
            cluster_sizes@.len() as int,
        ),
        lists(r.worker_distribution@) == distribution(cluster_sizes@, r.num_workers as int),
        r.cluster_stats@.len() == cluster_sizes@.len(),
        forall|i: int|
            0 <= i < cluster_sizes@.len() ==> (#[trigger] r.cluster_stats@[i]).count
                == cluster_sizes@[i],
        r.worker_distribution@.len() == cluster_sizes@.len(),
        forall|c: int|
            0 <= c < cluster_sizes@.len() ==> (#[trigger] r.worker_distribution@[c])@
                == distribution(cluster_sizes@, r.num_workers as int)[c],
        cluster_sizes@.len() <= 64 ==> r.num_workers <= 64,
        cluster_sizes@.len() <= workers <= 64 ==> r.num_workers == workers,
        workers < cluster_sizes@.len() ==> r.num_workers == cluster_sizes@.len(),
        r.cluster_queues_size == estimated_bytes(
            r.queue_capacities@,
            num_dimensions as int,
            cv_size as int,
        ),
        r.centroids_size == centroids_bytes(
            cluster_sizes@.len() as int,
            num_dimensions as int,
        ),
{
    let num_clusters: usize = cluster_sizes.len();
    let total_vectors: usize = total(cluster_sizes);
    let mut cluster_stats: Vec<ClusterStats> = Vec::new();
    for i in 0..num_clusters
        invariant
            num_clusters == cluster_sizes@.len(),
            cluster_stats@.len() == i,
            forall|k: int|
                0 <= k < i ==> (#[trigger] cluster_stats@[k]).cluster_id == k
                    && cluster_stats@[k].count == cluster_sizes@[k]
                    && cluster_stats@[k].sample_vectors@.len() == 0,
    {
        cluster_stats.push(ClusterStats::with_count(i, cluster_sizes[i]));
    }
    assert(counts(cluster_stats@) =~= cluster_sizes@);
    let queue_capacities = calculate_queue_capacities(
        cluster_stats.as_slice(),
        total_vectors,
        queue_capacity,
    );
    assert(queue_capacities@ =~= capacities(cluster_sizes@, queue_capacity as int));
    let max_capacity: usize = largest_of(&queue_capacities, queue_capacity);
    proof {
        law_largest_of_all(queue_capacities@, queue_capacity);
    }
    let capped: usize = if workers < MAX_WORKERS {
        workers
    } else {
        MAX_WORKERS
    };
    let num_workers: usize = if capped < num_clusters {
        num_clusters
    } else {
        capped
    };
    let worker_distribution = calculate_worker_distribution(
        cluster_stats.as_slice(),
        num_workers,
    );
    assert(Seq::new(cluster_stats@.len(), |i: int| cluster_stats@[i].count) =~= cluster_sizes@);
    let cluster_queues_size: usize = estimate_queues_size(
        queue_capacities.as_slice(),
        num_dimensions,
        cv_size,
    );
    let centroids_size: usize = centroids_size(num_clusters, num_dimensions);
    BuildPlan {
        total_vectors,
        cluster_stats,
        queue_capacities,
        max_capacity,
        num_workers,
        worker_distribution,
        cluster_queues_size,
        centroids_size,
    }
}

/// What the `i`th of the workers of a cluster is told to build: its piece of the cluster, or
/// everything where the cluster is thought to be empty.
pub open spec fn share(cluster_id: int, size: int, workers: int, i: int) -> WorkerAssignment {
    if size > 0 {
        chunk(cluster_id, size, workers, i)
    } else {
        WorkerAssignment {
            cluster_id: cluster_id as usize,
            start_idx: 0,
            end_idx: usize::MAX,
            is_primary: i == 0,
        }
    }
}

/// After the first `i` workers of a cluster were told their shares.
pub open spec fn with_list(
    all: AssignmentsView,
    cluster_id: int,
    size: int,
    workers: Seq<usize>,
    i: int,
) -> AssignmentsView
    decreases i,
{
    if i <= 0 {
        all
    } else {
        with_list(all, cluster_id, size, workers, i - 1).with(
            workers[i - 1] as int,
            share(cluster_id, size, workers.len() as int, i - 1),
        )
    }
}

/// The size of a cluster, none beyond the last one.
pub open spec fn size_of(sizes: Seq<usize>, cluster_id: int) -> int {
    if cluster_id < sizes.len() {
        sizes[cluster_id] as int
    } else {
        0
    }
}

/// After the workers of the first `k` clusters were told their shares.
pub open spec fn with_lists(
    all: AssignmentsView,
    sizes: Seq<usize>,
    lists: Seq<Seq<usize>>,
    k: int,
) -> AssignmentsView
    decreases k,
{
    if k <= 0 {
        all
    } else {
        with_list(
            with_lists(all, sizes, lists, k - 1),
            k - 1,
            size_of(sizes, k - 1),
            lists[k - 1],
            lists[k - 1].len() as int,
        )
    }
}

/// Tells each worker of a distribution its share of its cluster.
pub fn assign_workers(
    worker_distribution: &[Vec<usize>],
    cluster_stats: &[ClusterStats],
    assignments: &mut WorkerAssignments,
)
    requires
        old(assignments)@.wf(),
        forall|c: int|
            0 <= c < worker_distribution@.len() ==> {
                let workers = (#[trigger] worker_distribution@[c])@.len();
                let size = size_of(counts(cluster_stats@), c);
                size > 0 ==> size + workers <= usize::MAX
            },
    ensures
        final(assignments)@.wf(),
        final(assignments)@ == with_lists(
            old(assignments)@,
            counts(cluster_stats@),
            lists(worker_distribution@),
            worker_distribution@.len() as int,
        ),
{
    let ghost start = assignments@;
    let ghost sizes = counts(cluster_stats@);
    let ghost all = lists(worker_distribution@);
    for cluster_id in 0..worker_distribution.len()
        invariant
            assignments@.wf(),
            sizes == counts(cluster_stats@),
            all == lists(worker_distribution@),
            forall|c: int|
                0 <= c < worker_distribution@.len() ==> {
                    let workers = (#[trigger] worker_distribution@[c])@.len();
                    let size = size_of(sizes, c);
                    size > 0 ==> size + workers <= usize::MAX
                },
            assignments@ == with_lists(start, sizes, all, cluster_id as int),
    {
        let workers = &worker_distribution[cluster_id];
        let size: usize = if cluster_id < cluster_stats.len() {
            cluster_stats[cluster_id].count
        } else {
            0
        };
        let n: usize = workers.len();
        let ghost before = assignments@;
        assert(all[cluster_id as int] == workers@);
        assert(size == size_of(sizes, cluster_id as int));
        assert(worker_distribution@[cluster_id as int]@.len() == n);
        if n > 0 {
            proof {
                if size > 0 {
                    lemma_chunk_size(size as int, n as int, 0);
                }
            }
            let chunk_len: usize = if size > 0 {
                (size + (n - 1)) / n
            } else {
                0
            };
            for i in 0..n
                invariant
                    n == workers@.len(),
                    0 < n,
                    size > 0 ==> size + n <= usize::MAX,
                    size > 0 ==> chunk_len == chunk_size(size as int, n as int),
                    assignments@.wf(),
                    assignments@ == with_list(
                        before,
                        cluster_id as int,
                        size as int,
                        workers@,
                        i as int,
                    ),
            {
                proof {
                    if size > 0 {
                        lemma_chunk_size(size as int, n as int, i as int);
                        lemma_chunk_size(size as int, n as int, i + 1);
                    }
                }
                let (start_idx, end_idx): (usize, usize) = if size > 0 {
                    let next: usize = (i + 1) * chunk_len;
                    (
                        i * chunk_len,
                        if next < size {
                            next
                        } else {
                            size
                        },
                    )
                } else {
                    (0, usize::MAX)
                };
                assignments.set_assignment(
                    workers[i],
                    WorkerAssignment::new(cluster_id, start_idx, end_idx, i == 0),
                );
            }
        }
    }
}

proof fn lemma_with_list(
    all: AssignmentsView,
    cluster_id: int,
    size: int,
    workers: Seq<usize>,
    i: int,
    n: int,
)
    requires
        all.wf(),
        0 <= i <= workers.len(),
        n <= MAX_WORKERS,
        forall|j: int| 0 <= j < workers.len() ==> (#[trigger] workers[j]) < n,
        forall|a: int, b: int|
            0 <= a < b < workers.len() ==> #[trigger] workers[a] != #[trigger] workers[b],
    ensures
        ({
            let after = with_list(all, cluster_id, size, workers, i);
            &&& after.wf()
            &&& after.ready == all.ready
            &&& all.count <= after.count <= max(all.count, n)
            &&& forall|j: int|
                0 <= j < i ==> (#[trigger] workers[j]) < after.count
                    && after.assignments[workers[j] as int] == share(
                    cluster_id,
                    size,
                    workers.len() as int,
                    j,
                )
            &&& forall|w: int|
                0 <= w < MAX_WORKERS && (forall|j: int|
                    0 <= j < i ==> #[trigger] workers[j] != w)
                    ==> #[trigger] after.assignments[w] == all.assignments[w]
        }),
    decreases i,
{
    if i > 0 {
        lemma_with_list(all, cluster_id, size, workers, i - 1, n);
        let before = with_list(all, cluster_id, size, workers, i - 1);
        let after = with_list(all, cluster_id, size, workers, i);
        assert(workers[i - 1] < n);
        assert forall|j: int| 0 <= j < i implies (#[trigger] workers[j]) < after.count
            && after.assignments[workers[j] as int] == share(
            cluster_id,
            size,
            workers.len() as int,
            j,
        ) by {
            if j < i - 1 {
                assert(workers[j] != workers[i - 1]);
            }
        }
        assert forall|w: int|
            0 <= w < MAX_WORKERS && (forall|j: int| 0 <= j < i ==> #[trigger] workers[j] != w)
            implies #[trigger] after.assignments[w] == all.assignments[w] by {
            assert(workers[i - 1] != w);
            assert(before.assignments[w] == all.assignments[w]);
        }
    }
}

proof fn lemma_with_lists(
    all: AssignmentsView,
    sizes: Seq<usize>,
    lists: Seq<Seq<usize>>,
    k: int,
    n: int,
)
    requires
        all.wf(),
        0 <= k <= lists.len(),
        0 <= n <= MAX_WORKERS,
        each_worker_once(lists, n),
    ensures
        ({
            let after = with_lists(all, sizes, lists, k);
            &&& after.wf()
            &&& after.ready == all.ready
            &&& all.count <= after.count <= max(all.count, n)
            &&& forall|c: int, i: int|
                0 <= c < k && 0 <= i < lists[c].len() ==> (#[trigger] lists[c][i]) < after.count
                    && after.assignments[lists[c][i] as int] == share(
                    c,
                    size_of(sizes, c),
                    lists[c].len() as int,
                    i,
                )
        }),
    decreases k,
{
    if k > 0 {
        lemma_with_lists(all, sizes, lists, k - 1, n);
        let before = with_lists(all, sizes, lists, k - 1);
        let workers = lists[k - 1];
        let size = size_of(sizes, k - 1);
        let after = with_lists(all, sizes, lists, k);
        assert forall|j: int| 0 <= j < workers.len() implies (#[trigger] workers[j]) < n by {
            assert(lists[k - 1][j] < n);
        }
        assert forall|a: int, b: int| 0 <= a < b < workers.len() implies #[trigger] workers[a]
            != #[trigger] workers[b] by {
            assert(lists[k - 1][a] == workers[a] && lists[k - 1][b] == workers[b]);
        }
        lemma_with_list(before, k - 1, size, workers, workers.len() as int, n);
        assert forall|c: int, i: int| 0 <= c < k && 0 <= i < lists[c].len() implies (
        #[trigger] lists[c][i]) < after.count && after.assignments[lists[c][i] as int] == share(
            c,
            size_of(sizes, c),
            lists[c].len() as int,
            i,
        ) by {
            let w = lists[c][i];
            if c < k - 1 {
                assert(lists[c][i] < n);
                assert forall|j: int| 0 <= j < workers.len() implies #[trigger] workers[j] != w by {
                    assert(lists[k - 1][j] == workers[j]);
                }
                assert(after.assignments[w as int] == before.assignments[w as int]);
            } else {
                assert(workers[i] == w);
            }
        }
    }
}

/// Once the shares of a distribution have been set, each of its workers reads its own, and
/// nobody else reads anything.
pub proof fn law_workers_read_their_shares(
    all: AssignmentsView,
    sizes: Seq<usize>,
    lists: Seq<Seq<usize>>,
    n: int,
    cluster_id: int,
    i: int,
    other: int,
)
    requires
        all.wf(),
        all.count == 0,
        0 <= n <= MAX_WORKERS,
        each_worker_once(lists, n),
        0 <= cluster_id < lists.len(),
        0 <= i < lists[cluster_id].len(),
        other >= n,
    ensures
        with_lists(all, sizes, lists, lists.len() as int).of(lists[cluster_id][i] as int) == Some(
            share(cluster_id, size_of(sizes, cluster_id), lists[cluster_id].len() as int, i),
        ),
        with_lists(all, sizes, lists, lists.len() as int).of(other) == None::<WorkerAssignment>,
{
    lemma_with_lists(all, sizes, lists, lists.len() as int, n);
    assert(lists[cluster_id][i] < n);
}

/// The workers below `n` that are assigned to a cluster.
spec fn builders(all: AssignmentsView, cluster_id: int, n: int) -> Set<int> {
    Set::new(|w: int| 0 <= w < n && all.assignments[w].cluster_id == cluster_id)
}

proof fn lemma_builders(all: AssignmentsView, cluster_id: int, n: int)
    requires
        0 <= n,
    ensures
        builders(all, cluster_id, n).finite(),
        builders(all, cluster_id, n).len() == all.workers_of(cluster_id, n),
    decreases n,
{
    if n > 0 {
        lemma_builders(all, cluster_id, n - 1);
        let before = builders(all, cluster_id, n - 1);
        if all.assignments[n - 1].cluster_id == cluster_id {
            assert(builders(all, cluster_id, n) =~= before.insert(n - 1));
        } else {
            assert(builders(all, cluster_id, n) =~= before);
        }
    } else {
        assert(builders(all, cluster_id, n) =~= Set::empty());
    }
}

/// The number of workers that a cluster was given is the number that its workers count.
pub proof fn law_workers_count_each_other(
    all: AssignmentsView,
    sizes: Seq<usize>,
    lists: Seq<Seq<usize>>,
    n: int,
    cluster_id: int,
)
    requires
        all.wf(),
        all.count == 0,
        0 <= n <= MAX_WORKERS,
        lists.len() <= usize::MAX,
        each_worker_once(lists, n),
        0 <= cluster_id < lists.len(),
    ensures
        ({
            let after = with_lists(all, sizes, lists, lists.len() as int);
            after.workers_of(cluster_id, after.count) == lists[cluster_id].len()
        }),
{
    let after = with_lists(all, sizes, lists, lists.len() as int);
    lemma_with_lists(all, sizes, lists, lists.len() as int, n);
    lemma_builders(after, cluster_id, after.count);
    let own = Seq::new(lists[cluster_id].len(), |i: int| lists[cluster_id][i] as int);
    assert(own.no_duplicates()) by {
        assert forall|a: int, b: int| 0 <= a < b < own.len() implies own[a] != own[b] by {
            assert(lists[cluster_id][a] == own[a] && lists[cluster_id][b] == own[b]);
        }
    }
    own.unique_seq_to_set();
    assert forall|w: int| builders(after, cluster_id, after.count).contains(w) implies
        own.to_set().contains(w) by {
        assert(crate::distribution::is_placed(lists, w));
        let (c, i) = choose|c: int, i: int|
            0 <= c < lists.len() && 0 <= i < lists[c].len() && #[trigger] lists[c][i] == w;
        assert(after.assignments[lists[c][i] as int].cluster_id == c);
        assert(own[i] == w);
    }
    assert forall|w: int| own.to_set().contains(w) implies builders(
        after,
        cluster_id,
        after.count,
    ).contains(w) by {
        let i = choose|i: int| 0 <= i < own.len() && own[i] == w;
        assert(lists[cluster_id][i] == w);
        assert(after.assignments[lists[cluster_id][i] as int].cluster_id == cluster_id);
    }
    assert(builders(after, cluster_id, after.count) =~= own.to_set());
}

proof fn lemma_list_bounded(lists: Seq<Seq<usize>>, n: int, cluster_id: int)
    requires
        0 <= n,
        each_worker_once(lists, n),
        0 <= cluster_id < lists.len(),
    ensures
        lists[cluster_id].len() <= n,
{
    let own = Seq::new(lists[cluster_id].len(), |i: int| lists[cluster_id][i] as int);
    assert(own.no_duplicates()) by {
        assert forall|a: int, b: int| 0 <= a < b < own.len() implies own[a] != own[b] by {
            assert(lists[cluster_id][a] == own[a] && lists[cluster_id][b] == own[b]);
        }
    }
    own.unique_seq_to_set();
    vstd::set_lib::lemma_int_range(0, n);
    assert forall|w: int| own.to_set().contains(w) implies vstd::set_lib::set_int_range(
        0,
        n,
    ).contains(w) by {
        let i = choose|i: int| 0 <= i < own.len() && own[i] == w;
        assert(lists[cluster_id][i] < n);
    }
    vstd::set_lib::lemma_len_subset(own.to_set(), vstd::set_lib::set_int_range(0, n));
}

/// What is planned can be assigned: the workers of each cluster are few enough for their shares
/// to be stated, and each cluster has one.
pub proof fn law_plan_can_be_assigned(sizes: Seq<usize>, num_workers: int, cluster_id: int)
    requires
        0 <= cluster_id < sizes.len() <= num_workers <= MAX_WORKERS,
        sum(sizes) + MAX_WORKERS <= usize::MAX,
    ensures
        ({
            let workers = distribution(sizes, num_workers)[cluster_id].len();
            let size = size_of(sizes, cluster_id);
            &&& 1 <= workers <= num_workers
            &&& size > 0 ==> size + workers <= usize::MAX
        }),
{
    law_every_worker_is_placed_once(sizes, num_workers);
    law_each_cluster_has_a_worker(sizes, num_workers, cluster_id);
    lemma_list_bounded(distribution(sizes, num_workers), num_workers, cluster_id);
    crate::sums::lemma_term_bounded(sizes, cluster_id);
}

/// The shares of a cluster's workers all name the cluster, and only the first worker is the
/// primary one. With vectors they are pieces of one length, the least that suffices; without,
/// each share is everything.
pub proof fn law_shares_have_one_length(cluster_id: int, size: int, workers: int, i: int)
    requires
        0 <= cluster_id <= usize::MAX,
        0 <= size,
        0 <= i < workers,
        size + workers <= usize::MAX,
    ensures
        ({
            let mine = share(cluster_id, size, workers, i);
            let length = share(cluster_id, size, workers, 0).end_idx as int;
            &&& mine.cluster_id == cluster_id
            &&& mine.is_primary == (i == 0)
            &&& size == 0 ==> mine.start_idx == 0 && mine.end_idx == usize::MAX
            &&& size > 0 ==> {
                &&& workers * (length - 1) < size <= workers * length
                &&& mine.start_idx == i * length
                &&& mine.end_idx == if (i + 1) * length <= size {
                    (i + 1) * length
                } else {
                    size
                }
            }
        }),
{
    if size > 0 {
        law_pieces_have_one_length(cluster_id, size, workers, i);
    }
}

/// A cluster without a size counts as empty.
pub proof fn law_unknown_cluster_is_empty(sizes: Seq<usize>, cluster_id: int)
    requires
        0 <= cluster_id,
    ensures
        cluster_id < sizes.len() ==> size_of(sizes, cluster_id) == sizes[cluster_id],
        cluster_id >= sizes.len() ==> size_of(sizes, cluster_id) == 0,
{
}

/// As many workers are counted for a cluster as there are that it was assigned to.
pub proof fn law_workers_of_a_cluster_are_counted(all: AssignmentsView, cluster_id: int, n: int)
    requires
        0 <= n,
    ensures
        all.workers_of(cluster_id, n) == Set::new(
            |w: int| 0 <= w < n && all.assignments[w].cluster_id == cluster_id,
        ).len(),
{
    lemma_builders(all, cluster_id, n);
    assert(builders(all, cluster_id, n) =~= Set::new(
        |w: int| 0 <= w < n && all.assignments[w].cluster_id == cluster_id,
    ));
}

/// The `i`th worker of a cluster builds its vector `x`.
pub open spec fn falls_to(cluster_id: int, size: int, workers: int, i: int, x: int) -> bool {
    share(cluster_id, size, workers, i).start_idx <= x < share(
        cluster_id,
        size,
        workers,
        i,
    ).end_idx
}

/// Each vector of a cluster falls to exactly one of its workers, and each worker of a cluster
/// that is thought to be empty builds everything that turns up there.
pub proof fn law_shares_cover_the_cluster(cluster_id: int, size: int, workers: int, x: int)
    requires
        0 < workers,
        0 <= size,
        0 <= x < usize::MAX,
        size > 0 ==> x < size && size + workers <= usize::MAX,
    ensures
        exists|i: int| 0 <= i < workers && #[trigger] falls_to(cluster_id, size, workers, i, x),
        size > 0 ==> forall|i: int, j: int|
            0 <= i < workers && 0 <= j < workers && #[trigger] falls_to(
                cluster_id,
                size,
                workers,
                i,
                x,
            ) && #[trigger] falls_to(cluster_id, size, workers, j, x) ==> i == j,
        size == 0 ==> forall|i: int|
            0 <= i < workers ==> #[trigger] falls_to(cluster_id, size, workers, i, x),
{
    if size > 0 {
        law_chunks_tile_the_cluster(cluster_id, size, workers, x);
        let all = chunks(cluster_id, size, workers);
        assert forall|i: int| 0 <= i < workers implies #[trigger] falls_to(
            cluster_id,
            size,
            workers,
            i,
            x,
        ) == (all[i].start_idx <= x < all[i].end_idx) by {}
        let k = choose|k: int|
            0 <= k < workers && (#[trigger] all[k]).start_idx <= x < all[k].end_idx;
        assert(falls_to(cluster_id, size, workers, k, x));
    } else {
        assert(falls_to(cluster_id, size, workers, 0, x));
    }
}

/// What the leader of a parallel build does next. Each action is answered by an event.
#[derive(Clone, Copy, Debug, PartialEq, Eq, Structural)]
pub enum LeaderAction {
    /// Enter parallel mode and ask for a shared memory segment.
    AllocateSegment,
    /// Write what the workers share into the segment, and enter each part under its key.
    FillSegment,
    LaunchWorkers,
    /// Wait until the workers have attached; `short` if not all of them were launched.
    WaitForAttach { short: bool },
    /// Tell the workers what to build, and wake them.
    AssignWorkers,
    /// Scan the table and push its vectors to the queues.
    ScanHeap,
    /// Push the vectors that are still buffered.
    FlushBatch,
    MarkProducerDone { ntuples: usize },
    FinishQueue { cluster_id: usize, ntuples: usize },
    /// Publish how many vectors were pushed.
    StoreTuples { ntuples: usize },
    WaitForFinish { ntuples: usize },
    /// Copy the start nodes of the clusters to the meta page.
    CollectStartNodes { ntuples: usize },
    /// Leave parallel mode; `built` tells how many vectors, if they have been built.
    CleanUp { built: Option<usize> },
    /// Build without workers.
    BuildSequentially,
    Return { ntuples: usize },
}

/// What happened when the leader acted.
#[derive(Clone, Copy, Debug, PartialEq, Eq, Structural)]
pub enum LeaderEvent {
    Done,
    /// Whether there is a segment.
    Allocated { present: bool },
    /// How many workers started.
    Launched { workers: i32 },
    /// How many vectors have been pushed, or built.
    Built { ntuples: usize },
}

/// What a parallel build is asked for.
#[derive(Clone, Copy, Debug, PartialEq, Eq, Structural)]
pub struct Leader {
    pub num_clusters: usize,
    pub num_workers: usize,
}

impl Leader {
    /// What the leader does after an action and what came of it. An event that does not
    /// answer the action changes nothing.
    pub open spec fn spec_next(self, action: LeaderAction, event: LeaderEvent) -> LeaderAction {
        match (action, event) {
            (LeaderAction::AllocateSegment, LeaderEvent::Allocated { present }) => if present {
                LeaderAction::FillSegment
            } else {
                LeaderAction::CleanUp { built: None }
            },
            (LeaderAction::FillSegment, LeaderEvent::Done) => LeaderAction::LaunchWorkers,
            (LeaderAction::LaunchWorkers, LeaderEvent::Launched { workers }) => if workers == 0 {
                LeaderAction::CleanUp { built: None }
            } else {
                LeaderAction::WaitForAttach { short: (workers as usize) < self.num_workers }
            },
            (
                LeaderAction::WaitForAttach { .. },
                LeaderEvent::Done,
            ) => LeaderAction::AssignWorkers,
            (LeaderAction::AssignWorkers, LeaderEvent::Done) => LeaderAction::ScanHeap,
            (LeaderAction::ScanHeap, LeaderEvent::Done) => LeaderAction::FlushBatch,
            (
                LeaderAction::FlushBatch,
                LeaderEvent::Built { ntuples },
            ) => LeaderAction::MarkProducerDone { ntuples },
            (LeaderAction::MarkProducerDone { ntuples }, LeaderEvent::Done) => self.finish(
                0,
                ntuples,
            ),
            (
                LeaderAction::FinishQueue { cluster_id, ntuples },
                LeaderEvent::Done,
            ) => self.finish(cluster_id + 1, ntuples),
            (
                LeaderAction::StoreTuples { ntuples },
                LeaderEvent::Done,
            ) => LeaderAction::WaitForFinish { ntuples },
            (
                LeaderAction::WaitForFinish { ntuples },
                LeaderEvent::Done,
            ) => LeaderAction::CollectStartNodes { ntuples },
            (
                LeaderAction::CollectStartNodes { ntuples },
                LeaderEvent::Done,
            ) => LeaderAction::CleanUp { built: Some(ntuples) },
            (LeaderAction::CleanUp { built }, LeaderEvent::Done) => match built {
                Some(ntuples) => LeaderAction::Return { ntuples },
                None => LeaderAction::BuildSequentially,
            },
            (
                LeaderAction::BuildSequentially,
                LeaderEvent::Built { ntuples },
            ) => LeaderAction::Return { ntuples },
            _ => action,
        }
    }

    /// The queues from one cluster on are still to be finished.
    pub open spec fn finish(self, cluster_id: int, ntuples: usize) -> LeaderAction {
        if cluster_id < self.num_clusters {
            LeaderAction::FinishQueue { cluster_id: cluster_id as usize, ntuples }
        } else {
            LeaderAction::StoreTuples { ntuples }
        }
    }

    /// What the leader does after an action and what came of it.
    pub fn next(&self, action: LeaderAction, event: LeaderEvent) -> (r: LeaderAction)
        ensures
            r == self.spec_next(action, event),
    {
        match (action, event) {
            (LeaderAction::AllocateSegment, LeaderEvent::Allocated { present }) => if present {
                LeaderAction::FillSegment
            } else {
                LeaderAction::CleanUp { built: None }
            },
            (LeaderAction::FillSegment, LeaderEvent::Done) => LeaderAction::LaunchWorkers,
            (LeaderAction::LaunchWorkers, LeaderEvent::Launched { workers }) => if workers == 0 {
                LeaderAction::CleanUp { built: None }
            } else {
                LeaderAction::WaitForAttach { short: (workers as usize) < self.num_workers }
            },
            (
                LeaderAction::WaitForAttach { .. },
                LeaderEvent::Done,
            ) => LeaderAction::AssignWorkers,
            (LeaderAction::AssignWorkers, LeaderEvent::Done) => LeaderAction::ScanHeap,
            (LeaderAction::ScanHeap, LeaderEvent::Done) => LeaderAction::FlushBatch,
            (
                LeaderAction::FlushBatch,
                LeaderEvent::Built { ntuples },
            ) => LeaderAction::MarkProducerDone { ntuples },
            (LeaderAction::MarkProducerDone { ntuples }, LeaderEvent::Done) => {
                if self.num_clusters > 0 {
                    LeaderAction::FinishQueue { cluster_id: 0, ntuples }
                } else {
                    LeaderAction::StoreTuples { ntuples }
                }
            },
            (LeaderAction::FinishQueue { cluster_id, ntuples }, LeaderEvent::Done) => {
                if cluster_id < self.num_clusters && cluster_id + 1 < self.num_clusters {
                    LeaderAction::FinishQueue { cluster_id: cluster_id + 1, ntuples }
                } else {
                    LeaderAction::StoreTuples { ntuples }
                }
            },
            (
                LeaderAction::StoreTuples { ntuples },
                LeaderEvent::Done,
            ) => LeaderAction::WaitForFinish { ntuples },
            (
                LeaderAction::WaitForFinish { ntuples },
                LeaderEvent::Done,
            ) => LeaderAction::CollectStartNodes { ntuples },
            (
                LeaderAction::CollectStartNodes { ntuples },
                LeaderEvent::Done,
            ) => LeaderAction::CleanUp { built: Some(ntuples) },
            (LeaderAction::CleanUp { built }, LeaderEvent::Done) => match built {
                Some(ntuples) => LeaderAction::Return { ntuples },
                None => LeaderAction::BuildSequentially,
            },
            (
                LeaderAction::BuildSequentially,
                LeaderEvent::Built { ntuples },
            ) => LeaderAction::Return { ntuples },
            _ => action,
        }
    }

    /// The actions of a build that meets given events.
    pub open spec fn actions(self, events: Seq<LeaderEvent>) -> Seq<LeaderAction>
        decreases events.len(),
    {
        if events.len() == 0 {
            seq![LeaderAction::AllocateSegment]
        } else {
            let before = self.actions(events.drop_last());
            before.push(self.spec_next(before.last(), events.last()))
        }
    }

    /// How far along the build an action stands.
    spec fn rank(self, action: LeaderAction) -> int {
        match action {
            LeaderAction::AllocateSegment => 0,
            LeaderAction::FillSegment => 1,
            LeaderAction::LaunchWorkers => 2,
            LeaderAction::WaitForAttach { .. } => 3,
            LeaderAction::AssignWorkers => 4,
            LeaderAction::ScanHeap => 5,
            LeaderAction::FlushBatch => 6,
            LeaderAction::MarkProducerDone { .. } => 7,
            LeaderAction::FinishQueue { cluster_id, .. } => 8 + cluster_id,
            LeaderAction::StoreTuples { .. } => 8 + self.num_clusters,
            LeaderAction::WaitForFinish { .. } => 9 + self.num_clusters,
            LeaderAction::CollectStartNodes { .. } => 10 + self.num_clusters,
            LeaderAction::CleanUp { .. } => 11 + self.num_clusters,
            LeaderAction::BuildSequentially => 12 + self.num_clusters,
            LeaderAction::Return { .. } => 13 + self.num_clusters,
        }
    }

    /// Before an action of a build everything has been done that it relies on: workers are
    /// told what to build before the scan that fills their queues, each queue is finished
    /// after everything was pushed, and all are finished before the workers are awaited.
    /// Nothing is returned and nothing is built in another way before the parallel build
    /// has been cleaned up.
    pub open spec fn in_order(self, actions: Seq<LeaderAction>, k: int) -> bool {
        let action = actions[k];
        let carried = self.ntuples_of(action);
        &&& (action is ScanHeap || action is FlushBatch || carried is Some) ==> done_before(
            actions,
            k,
            LeaderAction::AssignWorkers,
        )
        &&& (action is FlushBatch || carried is Some) ==> done_before(
            actions,
            k,
            LeaderAction::ScanHeap,
        )
        &&& carried is Some ==> done_before(actions, k, LeaderAction::FlushBatch)
        &&& action matches LeaderAction::FinishQueue { cluster_id, ntuples } ==> {
            &&& cluster_id < self.num_clusters
            &&& forall|c: int|
                0 <= c < cluster_id ==> done_before(actions, k, #[trigger] finished(c, ntuples))
        }
        &&& carried is Some && !(action is MarkProducerDone) && !(action is FinishQueue)
            ==> forall|c: int|
            0 <= c < self.num_clusters ==> done_before(
                actions,
                k,
                #[trigger] finished(c, carried->0),
            )
        &&& action is BuildSequentially ==> done_before(
            actions,
            k,
            LeaderAction::CleanUp { built: None },
        )
        &&& action is Return ==> exists|ntuples: Option<usize>|
            done_before(actions, k, #[trigger] cleaned_up(ntuples))
    }

    /// The number of vectors that an action after the scan carries along.
    pub open spec fn ntuples_of(self, action: LeaderAction) -> Option<usize> {
        match action {
            LeaderAction::MarkProducerDone { ntuples } => Some(ntuples),
            LeaderAction::FinishQueue { ntuples, .. } => Some(ntuples),
            LeaderAction::StoreTuples { ntuples } => Some(ntuples),
            LeaderAction::WaitForFinish { ntuples } => Some(ntuples),
            LeaderAction::CollectStartNodes { ntuples } => Some(ntuples),
            LeaderAction::CleanUp { built } => built,
            _ => None,
        }
    }
}

/// Finishing the queue of a cluster.
pub open spec fn finished(cluster_id: int, ntuples: usize) -> LeaderAction {
    LeaderAction::FinishQueue { cluster_id: cluster_id as usize, ntuples }
}

/// Cleaning up after a build.
pub open spec fn cleaned_up(ntuples: Option<usize>) -> LeaderAction {
    LeaderAction::CleanUp { built: ntuples }
}

/// An action stands somewhere before a place.
pub open spec fn done_before(actions: Seq<LeaderAction>, k: int, action: LeaderAction) -> bool {
    exists|i: int| 0 <= i < k && #[trigger] actions[i] == action
}

impl Leader {
    proof fn lemma_actions(self, events: Seq<LeaderEvent>, k: int)
        requires
            0 <= k < events.len(),
        ensures
            self.actions(events).len() == events.len() + 1,
            self.actions(events)[k + 1] == self.spec_next(self.actions(events)[k], events[k]),
        decreases events.len(),
    {
        let before = self.actions(events.drop_last());
        if k < events.len() - 1 {
            self.lemma_actions(events.drop_last(), k);
        } else {
            self.lemma_actions_len(events.drop_last());
        }
    }

    proof fn lemma_actions_len(self, events: Seq<LeaderEvent>)
        ensures
            self.actions(events).len() == events.len() + 1,
            self.actions(events)[0] == LeaderAction::AllocateSegment,
        decreases events.len(),
    {
        if events.len() > 0 {
            self.lemma_actions_len(events.drop_last());
        }
    }

    /// Whatever happens, the leader acts in order.
    pub proof fn law_leader_acts_in_order(self, events: Seq<LeaderEvent>, k: int)
        requires
            0 <= k <= events.len(),
        ensures
            self.actions(events).len() == events.len() + 1,
            self.in_order(self.actions(events), k),
        decreases k,
    {
        let actions = self.actions(events);
        self.lemma_actions_len(events);
        if k > 0 {
            self.law_leader_acts_in_order(events, k - 1);
            self.lemma_actions(events, k - 1);
            let last = actions[k - 1];
            let action = actions[k];
            assert forall|a: LeaderAction| #[trigger] done_before(actions, k - 1, a) implies
                done_before(actions, k, a) by {
                let i = choose|i: int| 0 <= i < k - 1 && #[trigger] actions[i] == a;
                assert(actions[i] == a);
            }
            assert(done_before(actions, k, last));
            if action is Return && !(last is Return) {
                if last is CleanUp {
                    assert(cleaned_up(last->CleanUp_built) == last);
                } else {
                    assert(cleaned_up(None) == LeaderAction::CleanUp { built: None });
                }
                assert(exists|ntuples: Option<usize>|
                    done_before(actions, k, #[trigger] cleaned_up(ntuples)));
            }
            if action is FinishQueue || action is StoreTuples {
                if last is FinishQueue {
                    let ntuples = last->FinishQueue_ntuples;
                    assert(finished(last->FinishQueue_cluster_id as int, ntuples) == last);
                }
            }
        }
    }

    proof fn lemma_rank_grows(self, action: LeaderAction, event: LeaderEvent)
        requires
            action matches LeaderAction::FinishQueue { cluster_id, .. } ==> cluster_id
                < self.num_clusters,
        ensures
            self.spec_next(action, event) == action || self.rank(self.spec_next(action, event))
                > self.rank(action),
    {
    }

    /// A build that has been cleaned up is not cleaned up again.
    pub proof fn law_leader_cleans_up_once(self, events: Seq<LeaderEvent>, i: int, j: int)
        requires
            0 <= i < j <= events.len(),
            self.actions(events)[i] is CleanUp,
            self.actions(events)[i + 1] != self.actions(events)[i],
        ensures
            !(self.actions(events)[j] is CleanUp),
    {
        let actions = self.actions(events);
        self.lemma_rank_monotone(events, i, i + 1);
        self.lemma_rank_monotone(events, i + 1, j);
    }

    proof fn lemma_rank_monotone(self, events: Seq<LeaderEvent>, i: int, j: int)
        requires
            0 <= i <= j <= events.len(),
        ensures
            self.rank(self.actions(events)[i]) <= self.rank(self.actions(events)[j]),
            j == i + 1 && self.actions(events)[i] != self.actions(events)[j] ==> self.rank(
                self.actions(events)[i],
            ) < self.rank(self.actions(events)[j]),
        decreases j - i,
    {
        if i < j {
            self.lemma_rank_monotone(events, i, j - 1);
            self.law_leader_acts_in_order(events, j - 1);
            self.lemma_actions(events, j - 1);
            self.lemma_rank_grows(self.actions(events)[j - 1], events[j - 1]);
        }
    }

    /// With a segment and any worker, and each action answered, the build is made in parallel:
    /// every step is taken in turn, the queue of each cluster is finished, and the number of
    /// vectors that the scan pushed is handed on to the end and returned.
    pub proof fn law_parallel_build_runs_through(
        self,
        events: Seq<LeaderEvent>,
        workers: i32,
        ntuples: usize,
        c: int,
    )
        requires
            workers > 0,
            events.len() == self.num_clusters + 12,
            events[0] == (LeaderEvent::Allocated { present: true }),
            events[2] == (LeaderEvent::Launched { workers }),
            events[6] == (LeaderEvent::Built { ntuples }),
            forall|i: int|
                0 <= i < events.len() && i != 0 && i != 2 && i != 6 ==> #[trigger] events[i]
                    == LeaderEvent::Done,
            0 <= c < self.num_clusters,
        ensures
            ({
                let actions = self.actions(events);
                let n = self.num_clusters as int;
                &&& actions[0] == LeaderAction::AllocateSegment
                &&& actions[1] == LeaderAction::FillSegment
                &&& actions[2] == LeaderAction::LaunchWorkers
                &&& actions[3] == LeaderAction::WaitForAttach { short: workers < self.num_workers }
                &&& actions[4] == LeaderAction::AssignWorkers
                &&& actions[5] == LeaderAction::ScanHeap
                &&& actions[6] == LeaderAction::FlushBatch
                &&& actions[7] == LeaderAction::MarkProducerDone { ntuples }
                &&& actions[8 + c] == LeaderAction::FinishQueue { cluster_id: c as usize, ntuples }
                &&& actions[8 + n] == LeaderAction::StoreTuples { ntuples }
                &&& actions[9 + n] == LeaderAction::WaitForFinish { ntuples }
                &&& actions[10 + n] == LeaderAction::CollectStartNodes { ntuples }
                &&& actions[11 + n] == LeaderAction::CleanUp { built: Some(ntuples) }
                &&& actions[12 + n] == LeaderAction::Return { ntuples }
            }),
    {
        let n = self.num_clusters as int;
        self.lemma_actions_len(events);
        self.lemma_actions(events, 0);
        self.lemma_actions(events, 1);
        self.lemma_actions(events, 2);
        self.lemma_actions(events, 3);
        self.lemma_actions(events, 4);
        self.lemma_actions(events, 5);
        self.lemma_actions(events, 6);
        self.lemma_queues_are_finished(events, ntuples, c);
        self.lemma_queues_are_finished(events, ntuples, n);
        self.lemma_actions(events, 8 + n);
        self.lemma_actions(events, 9 + n);
        self.lemma_actions(events, 10 + n);
        self.lemma_actions(events, 11 + n);
    }

    proof fn lemma_queues_are_finished(self, events: Seq<LeaderEvent>, ntuples: usize, c: int)
        requires
            0 <= c <= self.num_clusters,
            8 + c <= events.len(),
            self.actions(events)[7] == (LeaderAction::MarkProducerDone { ntuples }),
            forall|i: int| 7 <= i < events.len() ==> #[trigger] events[i] == LeaderEvent::Done,
        ensures
            self.actions(events)[8 + c] == self.finish(c, ntuples),
        decreases c,
    {
        if c > 0 {
            self.lemma_queues_are_finished(events, ntuples, c - 1);
        }
        self.lemma_actions(events, 7 + c);
    }

    /// Without a segment, or without any worker, the build is cleaned up and made sequentially,
    /// and what that built is returned.
    pub proof fn law_build_without_workers_is_sequential(
        self,
        events: Seq<LeaderEvent>,
        ntuples: usize,
    )
        requires
            events.len() >= 3,
            ({
                ||| events[0] == (LeaderEvent::Allocated { present: false }) && events.len() == 3
                ||| events.len() == 5 && events[0] == (LeaderEvent::Allocated { present: true })
                    && events[1] == LeaderEvent::Done && events[2] == (LeaderEvent::Launched {
                    workers: 0,
                })
            }),
            events[events.len() - 2] == LeaderEvent::Done,
            events.last() == (LeaderEvent::Built { ntuples }),
        ensures
            ({
                let actions = self.actions(events);
                let n = events.len() as int;
                &&& actions[n - 2] == LeaderAction::CleanUp { built: None }
                &&& actions[n - 1] == LeaderAction::BuildSequentially
                &&& actions[n] == LeaderAction::Return { ntuples }
            }),
    {
        self.lemma_actions_len(events);
        self.lemma_actions(events, 0);
        self.lemma_actions(events, 1);
        self.lemma_actions(events, 2);
        if events.len() == 5 {
            self.lemma_actions(events, 3);
            self.lemma_actions(events, 4);
        }
    }

    /// The leader goes on only when its action is answered: a segment, launched workers and
    /// built vectors are reported as such, and everything else as done.
    pub proof fn law_leader_waits_for_its_answer(self, action: LeaderAction, event: LeaderEvent)
        ensures
            action is AllocateSegment && !(event is Allocated) ==> self.spec_next(action, event)
                == action,
            action is LaunchWorkers && !(event is Launched) ==> self.spec_next(action, event)
                == action,
            (action is FlushBatch || action is BuildSequentially) && !(event is Built)
                ==> self.spec_next(action, event) == action,
            !(action is AllocateSegment) && !(action is LaunchWorkers) && !(action is FlushBatch)
                && !(action is BuildSequentially) && event != LeaderEvent::Done ==> self.spec_next(
                action,
                event,
            ) == action,
            action is Return ==> self.spec_next(action, event) == action,
    {
    }
}

} // verus!
