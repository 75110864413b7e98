//! Which worker builds which part of which cluster.
use crate::accuracy::{law_conversion_is_close, law_times_is_close, lemma_ceiling_of_doubles, lemma_real_product, lemma_two_to_zero, two_to, value};
use crate::binary64::{from_int, over, saturated, times, Binary64};
use crate::double_order::{law_conversion_is_monotone, law_over_is_monotone, law_results_are_normalized, law_rounding_is_monotone, law_times_is_monotone};
use crate::start_nodes::MAX_CLUSTERS;
use crate::sums::{lemma_term_bounded, sum, total};
use vstd::math::{max, min};
use vstd::prelude::*;

verus! {

/// Maximum number of workers supported
pub const MAX_WORKERS: usize = 64;

/// Worker assignment for dynamic load balancing: the vectors of a cluster from `start_idx`
/// up to, not including, `end_idx`. One worker of a cluster is its primary one.
#[derive(Clone, Copy, Debug, PartialEq, Eq, Structural)]
pub struct WorkerAssignment {
    pub cluster_id: usize,
    pub start_idx: usize,
    pub end_idx: usize,
    pub is_primary: bool,
}

impl WorkerAssignment {
    pub fn new(cluster_id: usize, start_idx: usize, end_idx: usize, is_primary: bool) -> (r:
        WorkerAssignment)
        ensures
            r == (WorkerAssignment { cluster_id, start_idx, end_idx, is_primary }),
    {
        WorkerAssignment { cluster_id, start_idx, end_idx, is_primary }
    }
}

/// How many workers a share of `size` out of `total` vectors calls for, rounded up. The
/// quotient is taken in doubles.
pub open spec fn ideal_workers(size: int, num_workers: int, total: int) -> int {
    saturated(over(times(from_int(size), from_int(num_workers)), from_int(total)).ceil())
}

/// How many workers a non-empty cluster gets: its ideal number, but at least one, no more
/// than it has vectors, and no more than are left.
pub open spec fn workers_for_cluster(size: int, num_workers: int, total: int, used: int) -> int {
    min(min(max(ideal_workers(size, num_workers, total), 1), size), num_workers - used)
}

/// A cluster's share of the workers is `size * num_workers / total`, rounded up.
pub proof fn law_share_of_workers_is_rounded_up(size: int, num_workers: int, total: int)
    requires
        0 <= size <= total < 0x20_0000_0000_0000,
        0 < total,
        0 <= num_workers <= usize::MAX,
        size * num_workers < 0x20_0000_0000_0000,
        num_workers < 0x20_0000_0000_0000,
    ensures
        total * (ideal_workers(size, num_workers, total) - 1) < size * num_workers,
        size * num_workers <= total * ideal_workers(size, num_workers, total),
        0 <= ideal_workers(size, num_workers, total) <= num_workers,
{
    let (a, b, t) = (from_int(size), from_int(num_workers), from_int(total));
    law_conversion_is_close(size);
    law_conversion_is_close(num_workers);
    law_conversion_is_close(total);
    law_conversion_is_monotone(size, total);
    law_conversion_is_monotone(num_workers, num_workers);
    law_results_are_normalized(a, b);
    let n = size * num_workers;
    lemma_real_product(size, num_workers);
    assert(n >= 0) by (nonlinear_arith)
        requires
            n == size * num_workers,
            size >= 0,
            num_workers >= 0,
    ;
    lemma_two_to_zero();
    let (nr, one) = (n as real, two_to(0));
    assert(nr * one == nr) by (nonlinear_arith)
        requires
            one == 1real,
    ;
    assert(value(a) == size as real);
    assert(value(b) == num_workers as real);
    assert(value(a) * value(b) == nr);
    law_times_is_close(a, b, n, 0);
    assert(value(times(a, b)) == nr);
    lemma_ceiling_of_doubles(times(a, b), t, n, total);
    let c = over(times(a, b), t).ceil();
    assert(c <= num_workers) by (nonlinear_arith)
        requires
            total * (c - 1) < n,
            n == size * num_workers,
            size <= total,
            num_workers >= 0,
            total > 0,
    ;
    assert(0 <= c) by (nonlinear_arith)
        requires
            0 <= n <= total * c,
            total > 0,
    ;
}

/// Of two clusters the larger gets no fewer workers, where as many are left for it.
pub proof fn law_larger_cluster_gets_no_fewer_workers(
    smaller: int,
    larger: int,
    num_workers: int,
    total: int,
    used: int,
)
    requires
        0 <= smaller <= larger,
        0 <= num_workers,
        0 < total,
    ensures
        ideal_workers(smaller, num_workers, total) <= ideal_workers(larger, num_workers, total),
        workers_for_cluster(smaller, num_workers, total, used) <= workers_for_cluster(
            larger,
            num_workers,
            total,
            used,
        ),
{
    let (all, workers) = (from_int(total), from_int(num_workers));
    law_conversion_is_monotone(smaller, larger);
    law_conversion_is_monotone(total, total);
    law_conversion_is_monotone(num_workers, num_workers);
    let (a, b) = (times(from_int(smaller), workers), times(from_int(larger), workers));
    law_times_is_monotone(from_int(smaller), from_int(larger), workers);
    law_results_are_normalized(from_int(smaller), workers);
    law_results_are_normalized(from_int(larger), workers);
    law_over_is_monotone(a, b, all);
    law_results_are_normalized(a, all);
    law_results_are_normalized(b, all);
    law_rounding_is_monotone(over(a, all), over(b, all));
}

/// The length of the pieces into which `workers` workers cut `size` vectors, rounded up.
pub open spec fn chunk_size(size: int, workers: int) -> int {
    (size + workers - 1) / workers
}

/// The `i`th piece of a cluster.
pub open spec fn chunk(cluster_id: int, size: int, workers: int, i: int) -> WorkerAssignment {
    WorkerAssignment {
        cluster_id: cluster_id as usize,
        start_idx: (i * chunk_size(size, workers)) as usize,
        end_idx: min((i + 1) * chunk_size(size, workers), size) as usize,
        is_primary: i == 0,
    }
}

pub open spec fn chunks(cluster_id: int, size: int, workers: int) -> Seq<WorkerAssignment> {
    Seq::new(workers as nat, |i: int| chunk(cluster_id, size, workers, i))
}

/// What the first `k` clusters are assigned.
pub open spec fn assigned(sizes: Seq<usize>, num_workers: int, k: int) -> Seq<WorkerAssignment>
    decreases k,
{
    if k <= 0 {
        Seq::empty()
    } else {
        let before = assigned(sizes, num_workers, k - 1);
        let size = sizes[k - 1] as int;
        if size == 0 || before.len() >= num_workers {
            before
        } else {
            before + chunks(
                k - 1,
                size,
                workers_for_cluster(size, num_workers, sum(sizes), before.len() as int),
            )
        }
    }
}

/// A cluster is cut into pieces of one length, the least with which all workers together reach
/// its end: the first worker starts at the beginning and is the primary one, each other where
/// the one before it stops, and none goes beyond the end.
pub proof fn law_pieces_have_one_length(cluster_id: int, size: int, workers: int, i: int)
    requires
        0 <= cluster_id <= usize::MAX,
        0 < size,
        0 <= i < workers,
        size + workers <= usize::MAX,
    ensures
        ({
            let length = chunk(cluster_id, size, workers, 0).end_idx as int;
            let piece = chunk(cluster_id, size, workers, i);
            &&& 0 < length <= size
            &&& workers * (length - 1) < size <= workers * length
            &&& piece.cluster_id == cluster_id
            &&& piece.is_primary == (i == 0)
            &&& piece.start_idx == i * length
            &&& piece.end_idx == if (i + 1) * length <= size {
                (i + 1) * length
            } else {
                size
            }
        }),
{
    let length = chunk_size(size, workers);
    assert(workers * (length - 1) < size <= workers * length && 0 < length <= size)
        by (nonlinear_arith)
        requires
            length == (size + workers - 1) / workers,
            size > 0,
            workers > 0,
    ;
    assert(1 * length == length && 0 * length == 0);
    assert(0 <= i * length < size + workers) by (nonlinear_arith)
        requires
            workers * (length - 1) < size,
            0 <= i < workers,
            0 < length,
    ;
    assert(0 <= (i + 1) * length) by (nonlinear_arith)
        requires
            0 <= i,
            0 < length,
    ;
}

/// While workers are left, a cluster with vectors gets pieces for as many as its share of the
/// vectors calls for, rounded up, but for no more than it has vectors and no more than are
/// left; one without vectors, or for which nobody is left, gets none.
pub proof fn law_clusters_get_their_share_of_workers(
    sizes: Seq<usize>,
    num_workers: int,
    k: int,
    i: int,
)
    requires
        0 <= k < sizes.len(),
        0 <= num_workers <= usize::MAX,
        num_workers < 0x20_0000_0000_0000,
        sum(sizes) < 0x20_0000_0000_0000,
        sizes[k] * num_workers < 0x20_0000_0000_0000,
    ensures
        ({
            let before = assigned(sizes, num_workers, k);
            let after = assigned(sizes, num_workers, k + 1);
            let got = after.len() - before.len();
            let left = num_workers - before.len();
            let (size, total) = (sizes[k] as int, sum(sizes));
            &&& size == 0 || left == 0 ==> after == before
            &&& size > 0 && left > 0 ==> {
                &&& 1 <= got <= left
                &&& got <= size
                &&& total * (got - 1) < size * num_workers
                &&& got < left && got < size ==> size * num_workers <= total * got
                &&& 0 <= i < got ==> after[before.len() + i] == chunk(k, size, got, i)
            }
        }),
{
    let before = assigned(sizes, num_workers, k);
    law_assignments_fit_workers(sizes, num_workers, k);
    let (size, total) = (sizes[k] as int, sum(sizes));
    let left = num_workers - before.len();
    if size > 0 && left > 0 {
        crate::sums::lemma_term_bounded(sizes, k);
        law_share_of_workers_is_rounded_up(size, num_workers, total);
        let ideal = ideal_workers(size, num_workers, total);
        assert(ideal >= 1) by (nonlinear_arith)
            requires
                size * num_workers <= total * ideal,
                size > 0,
                num_workers > 0,
                total > 0,
        ;
        let got = workers_for_cluster(size, num_workers, total, before.len() as int);
        assert(total * (got - 1) <= total * (ideal - 1)) by (nonlinear_arith)
            requires
                got <= ideal,
                total > 0,
        ;
    }
}

/// No more assignments than workers.
pub proof fn law_assignments_fit_workers(sizes: Seq<usize>, num_workers: int, k: int)
    requires
        0 <= num_workers,
    ensures
        assigned(sizes, num_workers, k).len() <= num_workers,
    decreases k,
{
    if k > 0 {
        law_assignments_fit_workers(sizes, num_workers, k - 1);
    }
}

pub proof fn lemma_chunk_size(size: int, workers: int, i: int)
    requires
        0 < workers,
        0 < size,
        0 <= i <= workers,
    ensures
        0 < chunk_size(size, workers),
        0 <= i * chunk_size(size, workers) <= size + workers - 1,
        workers * chunk_size(size, workers) >= size,
{
    let c = chunk_size(size, workers);
    let n = size + workers - 1;
    assert(n == workers * (n / workers) + n % workers && 0 <= n % workers < workers)
        by (nonlinear_arith)
        requires
            workers > 0,
    ;
    assert(c > 0) by (nonlinear_arith)
        requires
            workers * c > n - workers,
            n - workers >= 0,
            workers > 0,
    ;
    assert(0 <= i * c <= workers * c) by (nonlinear_arith)
        requires
            0 <= i <= workers,
            c > 0,
    ;
}

/// Calculate worker assignments based on cluster sizes. Clusters are served in their order
/// until the workers run out; a cluster without vectors gets none.
pub fn calculate_worker_assignments(cluster_sizes: &[usize], num_workers: usize) -> (r: Vec<
    WorkerAssignment,
>)
    requires
        sum(cluster_sizes@) <= usize::MAX,
        forall|i: int|
            0 <= i < cluster_sizes@.len() ==> (#[trigger] cluster_sizes@[i]) + min(
                cluster_sizes@[i] as int,
                num_workers as int,
            ) <= usize::MAX,
    ensures
        r@ == assigned(cluster_sizes@, num_workers as int, cluster_sizes@.len() as int),
{
    let total_vectors: usize = total(cluster_sizes);
    let mut assignments: Vec<WorkerAssignment> = Vec::new();
    for cluster_id in 0..cluster_sizes.len()
        invariant
            sum(cluster_sizes@) <= usize::MAX,
            forall|i: int|
                0 <= i < cluster_sizes@.len() ==> (#[trigger] cluster_sizes@[i]) + min(
                    cluster_sizes@[i] as int,
                    num_workers as int,
                ) <= usize::MAX,
            total_vectors == sum(cluster_sizes@),
            assignments@ == assigned(cluster_sizes@, num_workers as int, cluster_id as int),
            assignments@.len() <= num_workers,
    {
        let size: usize = cluster_sizes[cluster_id];
        if size != 0 && assignments.len() < num_workers {
            proof {
                lemma_term_bounded(cluster_sizes@, cluster_id as int);
            }
            let left: usize = num_workers - assignments.len();
            let ideal: usize = Binary64::from_usize(size).times(
                Binary64::from_usize(num_workers),
            ).over(Binary64::from_usize(total_vectors)).ceil_to_usize();
            let wanted: usize = if ideal < 1 {
                1
            } else {
                ideal
            };
            let useful: usize = if wanted < size {
                wanted
            } else {
                size
            };
            let workers: usize = if useful < left {
                useful
            } else {
                left
            };
            let ghost before = assignments@;
            proof {
                law_assignments_fit_workers(
                    cluster_sizes@,
                    num_workers as int,
                    cluster_id + 1,
                );
                lemma_chunk_size(size as int, workers as int, 0);
            }
            let chunk_len: usize = (size + (workers - 1)) / workers;
            for i in 0..workers
                invariant
                    0 < workers,
                    0 < size,
                    size + workers <= usize::MAX,
                    chunk_len == chunk_size(size as int, workers as int),
                    assignments@ == before + chunks(
                        cluster_id as int,
                        size as int,
                        workers as int,
                    ).take(i as int),
            {
                proof {
                    lemma_chunk_size(size as int, workers as int, i as int);
                    lemma_chunk_size(size as int, workers as int, i + 1);
                }
                let start_idx: usize = i * chunk_len;
                let next_idx: usize = (i + 1) * chunk_len;
                let end_idx: usize = if next_idx < size {
                    next_idx
                } else {
                    size
                };
                assignments.push(WorkerAssignment::new(cluster_id, start_idx, end_idx, i == 0));
                assert(chunks(cluster_id as int, size as int, workers as int).take(i + 1)
                    =~= chunks(cluster_id as int, size as int, workers as int).take(
                    i as int,
                ).push(chunk(cluster_id as int, size as int, workers as int, i as int)));
            }
            assert(chunks(cluster_id as int, size as int, workers as int).take(workers as int)
                =~= chunks(cluster_id as int, size as int, workers as int));
        }
    }
    assignments
}

/// Every vector of a cluster falls to exactly one of the pieces into which it is cut.
pub proof fn law_chunks_tile_the_cluster(cluster_id: int, size: int, workers: int, x: int)
    requires
        0 < workers,
        0 <= x < size,
        size + workers <= usize::MAX,
    ensures
        exists|i: int|
            0 <= i < workers && (#[trigger] chunks(cluster_id, size, workers)[i]).start_idx <= x
                < chunks(cluster_id, size, workers)[i].end_idx,
        forall|i: int, j: int|
            0 <= i < workers && 0 <= j < workers && (#[trigger] chunks(
                cluster_id,
                size,
                workers,
            )[i]).start_idx <= x < chunks(cluster_id, size, workers)[i].end_idx && (
            #[trigger] chunks(cluster_id, size, workers)[j]).start_idx <= x < chunks(
                cluster_id,
                size,
                workers,
            )[j].end_idx ==> i == j,
{
    let c = chunk_size(size, workers);
    lemma_chunk_size(size, workers, 0);
    let k = x / c;
    assert(k * c <= x < (k + 1) * c && 0 <= k) by (nonlinear_arith)
        requires
            k == x / c,
            c > 0,
            x >= 0,
    ;
    assert(k < workers) by (nonlinear_arith)
        requires
            k * c <= x,
            x < size,
            size <= workers * c,
            c > 0,
    ;
    let all = chunks(cluster_id, size, workers);
    assert forall|i: int| 0 <= i < workers implies ((#[trigger] all[i]).start_idx <= x
        < all[i].end_idx <==> i == k) by {
        lemma_chunk_size(size, workers, i);
        lemma_chunk_size(size, workers, i + 1);
        if i * c <= x < (i + 1) * c {
            assert(i == k) by (nonlinear_arith)
                requires
                    i * c <= x < (i + 1) * c,
                    k * c <= x < (k + 1) * c,
                    c > 0,
            ;
        }
    }
    assert(all[k].start_idx <= x < all[k].end_idx);
}

/// While workers are left, a cluster with vectors gets at least one of them.
pub proof fn law_non_empty_cluster_gets_a_worker(
    size: int,
    num_workers: int,
    total: int,
    used: int,
)
    requires
        0 < size,
        used < num_workers,
    ensures
        1 <= workers_for_cluster(size, num_workers, total, used) <= num_workers - used,
        workers_for_cluster(size, num_workers, total, used) <= size,
{
}

/// The assignments of the first clusters stay as they are when later ones are served.
pub proof fn law_later_clusters_only_append(sizes: Seq<usize>, num_workers: int, j: int, k: int)
    requires
        0 <= j <= k,
    ensures
        assigned(sizes, num_workers, j).is_prefix_of(assigned(sizes, num_workers, k)),
    decreases k,
{
    if j < k {
        law_later_clusters_only_append(sizes, num_workers, j, k - 1);
    }
}

/// Shared worker assignments for all workers
pub struct WorkerAssignments {
    pub assignments: [WorkerAssignment; 64],
    pub num_assignments: usize,
    pub ready: bool,
}

/// The places of all workers, how many of them count, and whether workers may read them.
#[verifier::ext_equal]
pub struct AssignmentsView {
    pub assignments: Seq<WorkerAssignment>,
    pub count: int,
    pub ready: bool,
}

impl AssignmentsView {
    pub open spec fn wf(self) -> bool {
        &&& self.assignments.len() == MAX_WORKERS
        &&& 0 <= self.count <= MAX_WORKERS
    }

    /// What a worker is told to build.
    pub open spec fn of(self, worker_id: int) -> Option<WorkerAssignment> {
        if 0 <= worker_id < self.count {
            Some(self.assignments[worker_id])
        } else {
            None
        }
    }

    /// After an assignment was set; a worker beyond the last place is ignored.
    pub open spec fn with(self, worker_id: int, assignment: WorkerAssignment) -> AssignmentsView {
        if worker_id < MAX_WORKERS {
            AssignmentsView {
                assignments: self.assignments.update(worker_id, assignment),
                count: max(self.count, worker_id + 1),
                ready: self.ready,
            }
        } else {
            self
        }
    }

    /// How many of the first `n` workers build a cluster.
    pub open spec fn workers_of(self, cluster_id: int, n: int) -> int
        decreases n,
    {
        if n <= 0 {
            0
        } else {
            self.workers_of(cluster_id, n - 1) + if self.assignments[n - 1].cluster_id
                == cluster_id {
                1int
            } else {
                0int
            }
        }
    }
}

impl View for WorkerAssignments {
    type V = AssignmentsView;

    open spec fn view(&self) -> AssignmentsView {
        AssignmentsView {
            assignments: self.assignments@,
            count: self.num_assignments as int,
            ready: self.ready,
        }
    }
}

impl WorkerAssignments {
    /// Nobody is assigned anything.
    pub fn new() -> (r: WorkerAssignments)
        ensures
            r@.wf(),
            r@.count == 0,
            !r@.ready,
            forall|i: int|
                0 <= i < MAX_WORKERS ==> #[trigger] r@.assignments[i] == (WorkerAssignment {
                    cluster_id: 0,
                    start_idx: 0,
                    end_idx: 0,
                    is_primary: false,
                }),
    {
        WorkerAssignments {
            assignments: [WorkerAssignment::new(0, 0, 0, false); 64],
            num_assignments: 0,
            ready: false,
        }
    }

    /// Tells a worker what to build; a worker beyond the last place is ignored.
    pub fn set_assignment(&mut self, worker_id: usize, assignment: WorkerAssignment)
        requires
            old(self)@.wf(),
        ensures
            final(self)@.wf(),
            final(self)@ == old(self)@.with(worker_id as int, assignment),
    {
        if worker_id < MAX_WORKERS {
            self.assignments[worker_id] = assignment;
            if worker_id >= self.num_assignments {
                self.num_assignments = worker_id + 1;
            }
        }
    }

    /// What a worker is told to build.
    pub fn get_assignment(&self, worker_id: usize) -> (r: Option<WorkerAssignment>)
        requires
            self@.wf(),
        ensures
            r == self@.of(worker_id as int),
    {
        if worker_id < self.num_assignments {
            Some(self.assignments[worker_id])
        } else {
            None
        }
    }

    /// How many workers build a cluster.
    pub fn count_workers_for_cluster(&self, cluster_id: usize) -> (r: usize)
        requires
            self@.wf(),
        ensures
            r == self@.workers_of(cluster_id as int, self@.count),
    {
        let mut r: usize = 0;
        for i in 0..self.num_assignments
            invariant
                self@.wf(),
                r == self@.workers_of(cluster_id as int, i as int),
                r <= i,
        {
            if self.assignments[i].cluster_id == cluster_id {
                r = r + 1;
            }
        }
        r
    }

    /// Lets the workers read their assignments.
    pub fn mark_ready(&mut self)
        ensures
            final(self)@ == (AssignmentsView { ready: true, ..old(self)@ }),
    {
        self.ready = true;
    }

    pub fn is_ready(&self) -> (r: bool)
        ensures
            r == self@.ready,
    {
        self.ready
    }
}

/// A worker reads back what was set for it, whatever is set for others before or after.
pub proof fn law_set_then_get_assignment(
    all: AssignmentsView,
    worker_id: int,
    assignment: WorkerAssignment,
    other: int,
    another: WorkerAssignment,
)
    requires
        all.wf(),
        0 <= worker_id < MAX_WORKERS,
        0 <= other,
        other != worker_id,
    ensures
        all.with(worker_id, assignment).of(worker_id) == Some(assignment),
        all.with(worker_id, assignment).with(other, another).of(worker_id) == Some(assignment),
        other < all.count ==> all.with(worker_id, assignment).of(other) == all.of(other),
{
}

/// What is read of shared assignments and sizes is what their arrays hold.
pub proof fn law_arrays_are_read_as_they_are(all: WorkerAssignments, sizes: ClusterSizes, i: int)
    requires
        all@.wf(),
        sizes.wf(),
        0 <= i,
    ensures
        i < all.num_assignments ==> all@.of(i) == Some(all.assignments@[i]),
        i >= all.num_assignments ==> all@.of(i) == None::<WorkerAssignment>,
        all@.ready == all.ready,
        sizes@.len() == sizes.num_clusters,
        i < sizes.num_clusters ==> sizes@[i] == sizes.sizes@[i],
{
}

/// Before any assignment is set nobody has one, and one for a worker beyond the last place is
/// not kept.
pub proof fn law_no_assignment_without_setting(
    all: AssignmentsView,
    worker_id: int,
    beyond: int,
    assignment: WorkerAssignment,
)
    requires
        all.wf(),
        beyond >= 64,
    ensures
        all.count == 0 ==> all.of(worker_id) == None::<WorkerAssignment>,
        all.with(beyond, assignment) == all,
        all.of(beyond) == None::<WorkerAssignment>,
{
}

/// Cluster sizes tracking for dynamic worker allocation
pub struct ClusterSizes {
    pub sizes: [usize; 64],
    pub num_clusters: usize,
}

/// The sizes with one more vector of a cluster, starting again from zero after the largest
/// count; a cluster beyond the last one is ignored.
pub open spec fn counted(sizes: Seq<usize>, cluster_id: int) -> Seq<usize> {
    if cluster_id < sizes.len() {
        sizes.update(
            cluster_id,
            if sizes[cluster_id] < usize::MAX {
                (sizes[cluster_id] + 1) as usize
            } else {
                0
            },
        )
    } else {
        sizes
    }
}

/// Counting a vector adds one to the size of its cluster and changes no other size.
pub proof fn law_counting_adds_one(sizes: Seq<usize>, cluster_id: int, other: int)
    requires
        0 <= cluster_id,
        0 <= other < sizes.len(),
    ensures
        counted(sizes, cluster_id).len() == sizes.len(),
        other != cluster_id ==> counted(sizes, cluster_id)[other] == sizes[other],
        other == cluster_id && sizes[other] < usize::MAX ==> counted(sizes, cluster_id)[other]
            == sizes[other] + 1,
        other == cluster_id && sizes[other] == usize::MAX ==> counted(sizes, cluster_id)[other]
            == 0,
        cluster_id >= sizes.len() ==> counted(sizes, cluster_id) == sizes,
{
}

impl View for ClusterSizes {
    type V = Seq<usize>;

    /// The sizes of the clusters that are counted.
    open spec fn view(&self) -> Seq<usize> {
        self.sizes@.take(self.num_clusters as int)
    }
}

impl ClusterSizes {
    pub open spec fn wf(self) -> bool {
        self.num_clusters <= MAX_CLUSTERS
    }

    /// Counts up to 64 clusters, each of them empty.
    pub fn new(num_clusters: usize) -> (r: ClusterSizes)
        ensures
            r.wf(),
            r@ == Seq::new(min(num_clusters as int, 64) as nat, |i: int| 0usize),
    {
        let counted: usize = if num_clusters < MAX_CLUSTERS {
            num_clusters
        } else {
            MAX_CLUSTERS
        };
        let r = ClusterSizes { sizes: [0; 64], num_clusters: counted };
        assert(r@ =~= Seq::new(min(num_clusters as int, 64) as nat, |i: int| 0usize));
        r
    }

    /// Counts one more vector of a cluster.
    pub fn increment(&mut self, cluster_id: usize)
        requires
            old(self).wf(),
        ensures
            final(self).wf(),
            final(self)@ == counted(old(self)@, cluster_id as int),
    {
        if cluster_id < self.num_clusters {
            let ghost before = self@;
            let count: usize = self.sizes[cluster_id];
            self.sizes[cluster_id] = count.wrapping_add(1);
            assert(self@ =~= before.update(cluster_id as int, self.sizes@[cluster_id as int]));
        }
    }

    /// The size of a cluster; zero for one that is not counted.
    pub fn get(&self, cluster_id: usize) -> (r: usize)
        requires
            self.wf(),
        ensures
            r == if cluster_id < self@.len() {
                self@[cluster_id as int]
            } else {
                0
            },
    {
        if cluster_id < self.num_clusters {
            self.sizes[cluster_id]
        } else {
            0
        }
    }

    /// The sizes of all clusters that are counted.
    pub fn get_all(&self) -> (r: Vec<usize>)
        requires
            self.wf(),
        ensures
            r@ == self@,
    {
        let mut r: Vec<usize> = Vec::new();
        for i in 0..self.num_clusters
            invariant
                self.wf(),
                r@ == self@.take(i as int),
        {
            r.push(self.sizes[i]);
            assert(self@.take(i + 1) =~= self@.take(i as int).push(self.sizes@[i as int]));
        }
        assert(self@.take(self.num_clusters as int) =~= self@);
        r
    }
}

} // verus!
