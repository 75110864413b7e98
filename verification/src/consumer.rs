//! A worker that builds the graph of one cluster: how it finds its cluster, how much it takes
//! from the cluster's queue at a time, and what it does with each vector.
use crate::assignments::{WorkerAssignment, WorkerAssignments};
use crate::settings::{flush_rate, fraction_of};
use crate::shared::{SHM_TOC_CENTROIDS_KEY, SHM_TOC_CLUSTER_QUEUES_KEY, SHM_TOC_CLUSTER_START_NODES_KEY, SHM_TOC_SHARED_KEY};
use vstd::math::{max, min};
use vstd::prelude::*;

verus! {

/// Minimum batch size for multi-worker scenarios
/// Ensures each worker gets a reasonable amount of data even when queue has few entries
pub const MIN_BATCH_SIZE: usize = 32;

/// Maximum batch size to prevent a single worker from consuming too much data
pub const MAX_BATCH_SIZE: usize = 256;

/// With several workers for a cluster, each flushes no more often than every so many vectors.
pub const MIN_SHARED_FLUSH_INTERVAL: usize = 100;

/// How strongly a relation is locked.
#[derive(Clone, Copy, Debug, PartialEq, Eq, Structural)]
pub enum LockMode {
    RowExclusive,
    ShareUpdateExclusive,
    Share,
    AccessExclusive,
}

/// How a worker locks the table and the index.
#[derive(Clone, Copy, Debug, PartialEq, Eq, Structural)]
pub struct LockModes {
    pub heap: LockMode,
    pub index: LockMode,
}

pub open spec fn spec_lock_modes(is_concurrent: bool) -> LockModes {
    if is_concurrent {
        LockModes { heap: LockMode::Share, index: LockMode::AccessExclusive }
    } else {
        LockModes { heap: LockMode::ShareUpdateExclusive, index: LockMode::RowExclusive }
    }
}

pub fn lock_modes(is_concurrent: bool) -> (r: LockModes)
    ensures
        r == spec_lock_modes(is_concurrent),
{
    if is_concurrent {
        LockModes { heap: LockMode::Share, index: LockMode::AccessExclusive }
    } else {
        LockModes { heap: LockMode::ShareUpdateExclusive, index: LockMode::RowExclusive }
    }
}

/// The parts of shared memory without which a worker does nothing, in the order in which it
/// looks for them.
pub fn required_keys() -> (r: Vec<u64>)
    ensures
        r@ == seq![
            SHM_TOC_SHARED_KEY,
            SHM_TOC_CLUSTER_QUEUES_KEY,
            SHM_TOC_CENTROIDS_KEY,
            SHM_TOC_CLUSTER_START_NODES_KEY,
        ],
{
    let r = vec![
        SHM_TOC_SHARED_KEY,
        SHM_TOC_CLUSTER_QUEUES_KEY,
        SHM_TOC_CENTROIDS_KEY,
        SHM_TOC_CLUSTER_START_NODES_KEY,
    ];
    r
}

/// How many workers build a cluster; one if nothing is assigned.
pub fn workers_per_cluster(assignments: Option<&WorkerAssignments>, cluster_id: usize) -> (r: usize)
    requires
        assignments is Some ==> assignments->0@.wf(),
    ensures
        r == match assignments {
            Some(all) => all@.workers_of(cluster_id as int, all@.count),
            None => 1,
        },
{
    match assignments {
        Some(all) => all.count_workers_for_cluster(cluster_id),
        None => 1,
    }
}

/// What a worker process knows when it starts.
#[derive(Clone, Copy, Debug, PartialEq, Eq, Structural)]
pub struct Worker {
    pub worker_number: usize,
    pub num_clusters: usize,
    pub is_concurrent: bool,
    /// Shared memory holds assignments.
    pub has_assignments: bool,
}

/// What a worker process does next. Each action is answered by an event.
#[derive(Clone, Copy, Debug, PartialEq, Eq, Structural)]
pub enum WorkerAction {
    /// See whether the assignments are ready.
    CheckReady,
    /// From here on a wake-up is noticed.
    PrepareToSleep,
    /// See again whether the assignments are ready, now that a wake-up is noticed.
    CheckReadyAgain,
    CancelSleep,
    /// Sleep until woken.
    Sleep,
    ReadAssignment,
    OpenRelations { cluster_id: usize, locks: LockModes },
    BuildSubgraph { cluster_id: usize, locks: LockModes },
    /// Count this worker among those that have finished.
    CountFinished { locks: LockModes },
    CloseRelations { locks: LockModes },
    Exit,
}

/// What happened when a worker acted.
#[derive(Clone, Copy, Debug, PartialEq, Eq, Structural)]
pub enum WorkerEvent {
    Done,
    Ready { ready: bool },
    Assigned { assignment: Option<WorkerAssignment> },
}

impl Worker {
    /// The worker builds a cluster, if it has one.
    pub open spec fn with_cluster(self, cluster_id: Option<usize>) -> WorkerAction {
        match cluster_id {
            Some(cluster_id) => WorkerAction::OpenRelations {
                cluster_id,
                locks: spec_lock_modes(self.is_concurrent),
            },
            None => WorkerAction::Exit,
        }
    }

    /// What the worker does first. Where nothing is assigned, it builds the cluster of its own
    /// number.
    pub open spec fn spec_start(self) -> WorkerAction {
        if self.has_assignments {
            WorkerAction::CheckReady
        } else if self.worker_number < self.num_clusters {
            self.with_cluster(Some(self.worker_number))
        } else {
            self.with_cluster(None)
        }
    }

    /// What the worker does after an action and what came of it. An event that does not answer
    /// the action changes nothing.
    pub open spec fn spec_next(self, action: WorkerAction, event: WorkerEvent) -> WorkerAction {
        match (action, event) {
            (WorkerAction::CheckReady, WorkerEvent::Ready { ready }) => if ready {
                WorkerAction::ReadAssignment
            } else {
                WorkerAction::PrepareToSleep
            },
            (WorkerAction::PrepareToSleep, WorkerEvent::Done) => WorkerAction::CheckReadyAgain,
            (WorkerAction::CheckReadyAgain, WorkerEvent::Ready { ready }) => if ready {
                WorkerAction::CancelSleep
            } else {
                WorkerAction::Sleep
            },
            (WorkerAction::CancelSleep, WorkerEvent::Done) => WorkerAction::ReadAssignment,
            (WorkerAction::Sleep, WorkerEvent::Done) => WorkerAction::CheckReady,
            (
                WorkerAction::ReadAssignment,
                WorkerEvent::Assigned { assignment },
            ) => self.with_cluster(
                match assignment {
                    Some(assignment) => Some(assignment.cluster_id),
                    None => None,
                },
            ),
            (
                WorkerAction::OpenRelations { cluster_id, locks },
                WorkerEvent::Done,
            ) => WorkerAction::BuildSubgraph { cluster_id, locks },
            (
                WorkerAction::BuildSubgraph { locks, .. },
                WorkerEvent::Done,
            ) => WorkerAction::CountFinished { locks },
            (
                WorkerAction::CountFinished { locks },
                WorkerEvent::Done,
            ) => WorkerAction::CloseRelations { locks },
            (WorkerAction::CloseRelations { .. }, WorkerEvent::Done) => WorkerAction::Exit,
            _ => action,
        }
    }

    fn open(&self, cluster_id: usize) -> (r: WorkerAction)
        ensures
            r == self.with_cluster(Some(cluster_id)),
    {
        WorkerAction::OpenRelations { cluster_id, locks: lock_modes(self.is_concurrent) }
    }

    /// What the worker does first.
    pub fn start(&self) -> (r: WorkerAction)
        ensures
            r == self.spec_start(),
    {
        if self.has_assignments {
            WorkerAction::CheckReady
        } else if self.worker_number < self.num_clusters {
            self.open(self.worker_number)
        } else {
            WorkerAction::Exit
        }
    }

    /// What the worker does after an action and what came of it.
    pub fn next(&self, action: WorkerAction, event: WorkerEvent) -> (r: WorkerAction)
        ensures
            r == self.spec_next(action, event),
    {
        match (action, event) {
            (WorkerAction::CheckReady, WorkerEvent::Ready { ready }) => if ready {
                WorkerAction::ReadAssignment
            } else {
                WorkerAction::PrepareToSleep
            },
            (WorkerAction::PrepareToSleep, WorkerEvent::Done) => WorkerAction::CheckReadyAgain,
            (WorkerAction::CheckReadyAgain, WorkerEvent::Ready { ready }) => if ready {
                WorkerAction::CancelSleep
            } else {
                WorkerAction::Sleep
            },
            (WorkerAction::CancelSleep, WorkerEvent::Done) => WorkerAction::ReadAssignment,
            (WorkerAction::Sleep, WorkerEvent::Done) => WorkerAction::CheckReady,
            (WorkerAction::ReadAssignment, WorkerEvent::Assigned { assignment }) => {
                match assignment {
                    Some(assignment) => self.open(assignment.cluster_id),
                    None => WorkerAction::Exit,
                }
            },
            (
                WorkerAction::OpenRelations { cluster_id, locks },
                WorkerEvent::Done,
            ) => WorkerAction::BuildSubgraph { cluster_id, locks },
            (
                WorkerAction::BuildSubgraph { locks, .. },
                WorkerEvent::Done,
            ) => WorkerAction::CountFinished { locks },
            (
                WorkerAction::CountFinished { locks },
                WorkerEvent::Done,
            ) => WorkerAction::CloseRelations { locks },
            (WorkerAction::CloseRelations { .. }, WorkerEvent::Done) => WorkerAction::Exit,
            _ => action,
        }
    }

    /// The actions of a worker that meets given events.
    pub open spec fn actions(self, events: Seq<WorkerEvent>) -> Seq<WorkerAction>
        decreases events.len(),
    {
        if events.len() == 0 {
            seq![self.spec_start()]
        } else {
            let before = self.actions(events.drop_last());
            before.push(self.spec_next(before.last(), events.last()))
        }
    }

    proof fn lemma_actions(self, events: Seq<WorkerEvent>, k: int)
        requires
            0 <= k <= events.len(),
        ensures
            self.actions(events).len() == events.len() + 1,
            self.actions(events)[0] == self.spec_start(),
            k < events.len() ==> self.actions(events)[k + 1] == self.spec_next(
                self.actions(events)[k],
                events[k],
            ),
        decreases events.len(),
    {
        if events.len() > 0 {
            self.lemma_actions(
                events.drop_last(),
                if k < events.len() - 1 {
                    k
                } else {
                    0
                },
            );
        }
    }

    /// A worker that reads an assignment builds the cluster that it names: it opens the
    /// relations, builds, counts itself among the finished, closes the relations and exits. A
    /// worker for which there is no assignment exits at once.
    pub proof fn law_worker_builds_the_assigned_cluster(
        self,
        events: Seq<WorkerEvent>,
        assignment: Option<WorkerAssignment>,
    )
        requires
            self.has_assignments,
            events.len() == 6,
            events[0] == (WorkerEvent::Ready { ready: true }),
            events[1] == (WorkerEvent::Assigned { assignment }),
            forall|i: int| 2 <= i < 6 ==> #[trigger] events[i] == WorkerEvent::Done,
        ensures
            ({
                let actions = self.actions(events);
                let locks = LockModes {
                    heap: if self.is_concurrent {
                        LockMode::Share
                    } else {
                        LockMode::ShareUpdateExclusive
                    },
                    index: if self.is_concurrent {
                        LockMode::AccessExclusive
                    } else {
                        LockMode::RowExclusive
                    },
                };
                &&& actions[0] == WorkerAction::CheckReady
                &&& actions[1] == WorkerAction::ReadAssignment
                &&& assignment is None ==> actions[2] == WorkerAction::Exit
                &&& assignment matches Some(a) ==> {
                    let cluster_id = a.cluster_id;
                    &&& actions[2] == WorkerAction::OpenRelations { cluster_id, locks }
                    &&& actions[3] == WorkerAction::BuildSubgraph { cluster_id, locks }
                    &&& actions[4] == WorkerAction::CountFinished { locks }
                    &&& actions[5] == WorkerAction::CloseRelations { locks }
                }
                &&& actions[6] == WorkerAction::Exit
            }),
    {
        self.lemma_actions(events, 0);
        self.lemma_actions(events, 1);
        self.lemma_actions(events, 2);
        self.lemma_actions(events, 3);
        self.lemma_actions(events, 4);
        self.lemma_actions(events, 5);
    }

    /// Where nothing is assigned, a worker builds the cluster of its own number, and one
    /// without such a cluster exits at once.
    pub proof fn law_worker_without_assignments_builds_its_own_cluster(
        self,
        events: Seq<WorkerEvent>,
    )
        requires
            !self.has_assignments,
            events.len() == 4,
            forall|i: int| 0 <= i < 4 ==> #[trigger] events[i] == WorkerEvent::Done,
        ensures
            ({
                let actions = self.actions(events);
                &&& self.worker_number >= self.num_clusters ==> actions[0] == WorkerAction::Exit
                &&& self.worker_number < self.num_clusters ==> {
                    &&& actions[0] matches WorkerAction::OpenRelations { cluster_id, .. }
                        && cluster_id == self.worker_number
                    &&& actions[1] matches WorkerAction::BuildSubgraph { cluster_id, .. }
                        && cluster_id == self.worker_number
                    &&& actions[2] is CountFinished
                    &&& actions[3] is CloseRelations
                }
                &&& actions[4] == WorkerAction::Exit
            }),
    {
        self.lemma_actions(events, 0);
        self.lemma_actions(events, 1);
        self.lemma_actions(events, 2);
        self.lemma_actions(events, 3);
    }

    /// A worker whose assignment is not ready looks a second time before it sleeps: if it is
    /// ready by then the worker reads it, and else it starts over once it is woken.
    pub proof fn law_worker_looks_twice_before_it_sleeps(
        self,
        events: Seq<WorkerEvent>,
        k: int,
        ready: bool,
    )
        requires
            0 <= k,
            k + 4 <= events.len(),
            self.actions(events)[k] == WorkerAction::CheckReady,
            events[k] == (WorkerEvent::Ready { ready: false }),
            events[k + 1] == WorkerEvent::Done,
            events[k + 2] == (WorkerEvent::Ready { ready }),
            events[k + 3] == WorkerEvent::Done,
        ensures
            ({
                let actions = self.actions(events);
                &&& actions[k + 1] == WorkerAction::PrepareToSleep
                &&& actions[k + 2] == WorkerAction::CheckReadyAgain
                &&& ready ==> actions[k + 3] == WorkerAction::CancelSleep && actions[k + 4]
                    == WorkerAction::ReadAssignment
                &&& !ready ==> actions[k + 3] == WorkerAction::Sleep && actions[k + 4]
                    == WorkerAction::CheckReady
            }),
    {
        self.lemma_actions(events, k);
        self.lemma_actions(events, k + 1);
        self.lemma_actions(events, k + 2);
        self.lemma_actions(events, k + 3);
    }

    /// A worker goes on only when its action is answered.
    pub proof fn law_worker_waits_for_its_answer(self, action: WorkerAction, event: WorkerEvent)
        ensures
            (action is CheckReady || action is CheckReadyAgain) && !(event is Ready)
                ==> self.spec_next(action, event) == action,
            action is ReadAssignment && !(event is Assigned) ==> self.spec_next(action, event)
                == action,
            !(action is CheckReady) && !(action is CheckReadyAgain) && !(action is ReadAssignment)
                && event != WorkerEvent::Done ==> self.spec_next(action, event) == action,
            action is Exit ==> self.spec_next(action, event) == action,
    {
    }

    /// A worker reads its assignment only after it has seen that assignments are ready, and
    /// never builds a cluster that it was not given.
    pub proof fn law_worker_waits_for_its_assignment(self, events: Seq<WorkerEvent>, k: int)
        requires
            self.has_assignments,
            0 <= k <= events.len(),
        ensures
            ({
                let action = self.actions(events)[k];
                &&& (action is CancelSleep || action is ReadAssignment || action is OpenRelations
                    || action is BuildSubgraph) ==> saw_ready(events, k)
                &&& action matches WorkerAction::OpenRelations { cluster_id, .. } ==> was_given(
                    events,
                    k,
                    cluster_id,
                )
                &&& action matches WorkerAction::BuildSubgraph { cluster_id, .. } ==> was_given(
                    events,
                    k,
                    cluster_id,
                )
            }),
        decreases k,
    {
        self.lemma_actions(events, k);
        if k > 0 {
            self.law_worker_waits_for_its_assignment(events, k - 1);
            self.lemma_actions(events, k - 1);
            let last = self.actions(events)[k - 1];
            if saw_ready(events, k - 1) {
                let i = choose|i: int|
                    0 <= i < k - 1 && #[trigger] events[i] == (WorkerEvent::Ready { ready: true });
                assert(events[i] == (WorkerEvent::Ready { ready: true }));
                assert(saw_ready(events, k));
            }
            assert forall|c: usize| #[trigger] was_given(events, k - 1, c) implies was_given(
                events,
                k,
                c,
            ) by {
                let i = choose|i: int|
                    0 <= i < k - 1 && ((#[trigger] events[i]) matches WorkerEvent::Assigned {
                        assignment: Some(a),
                    } && a.cluster_id == c);
                assert(events[i] is Assigned);
            }
            if events[k - 1] == (WorkerEvent::Ready { ready: true }) {
                assert(saw_ready(events, k));
            }
            if last is ReadAssignment && events[k - 1] is Assigned {
                let given = events[k - 1]->assignment;
                if given is Some {
                    assert(was_given(events, k, given->0.cluster_id));
                }
            }
        }
    }

    /// A worker sleeps only if the assignments were not ready at a time from which a wake-up
    /// is noticed: it never sleeps through one.
    pub proof fn law_worker_misses_no_wake_up(self, events: Seq<WorkerEvent>, k: int)
        requires
            0 < k <= events.len(),
            self.actions(events)[k] is Sleep,
            self.actions(events)[k - 1] != self.actions(events)[k],
        ensures
            self.actions(events)[k - 1] is CheckReadyAgain,
            events[k - 1] == (WorkerEvent::Ready { ready: false }),
            prepared(self.actions(events), k - 1),
    {
        self.lemma_actions(events, k - 1);
        self.lemma_prepared(events, k - 1);
    }

    proof fn lemma_prepared(self, events: Seq<WorkerEvent>, k: int)
        requires
            0 <= k <= events.len(),
            self.actions(events)[k] is CheckReadyAgain,
        ensures
            prepared(self.actions(events), k),
        decreases k,
    {
        self.lemma_actions(events, k);
        if k > 0 {
            self.lemma_actions(events, k - 1);
            let actions = self.actions(events);
            if actions[k - 1] is CheckReadyAgain {
                self.lemma_prepared(events, k - 1);
                let i = choose|i: int|
                    0 <= i < k - 1 && #[trigger] actions[i] is PrepareToSleep && forall|j: int|
                        i < j <= k - 1 ==> #[trigger] actions[j] is CheckReadyAgain;
                assert(actions[i] is PrepareToSleep);
            } else {
                assert(actions[k - 1] is PrepareToSleep);
            }
        }
    }

    /// What a worker opened it closes, under the locks that it took.
    pub proof fn law_worker_closes_what_it_opened(self, events: Seq<WorkerEvent>, k: int)
        requires
            0 <= k <= events.len(),
        ensures
            match self.actions(events)[k] {
                WorkerAction::OpenRelations { locks, .. } => locks == spec_lock_modes(
                    self.is_concurrent,
                ),
                WorkerAction::BuildSubgraph { locks, .. } => locks == spec_lock_modes(
                    self.is_concurrent,
                ),
                WorkerAction::CountFinished { locks } => locks == spec_lock_modes(
                    self.is_concurrent,
                ),
                WorkerAction::CloseRelations { locks } => locks == spec_lock_modes(
                    self.is_concurrent,
                ),
                WorkerAction::Exit => forall|i: int|
                    0 <= i < k && #[trigger] self.actions(events)[i] is OpenRelations
                        ==> closed_before(self.actions(events), k),
                _ => forall|i: int|
                    0 <= i < k ==> !(#[trigger] self.actions(events)[i] is OpenRelations),
            },
        decreases k,
    {
        self.lemma_actions(events, k);
        if k > 0 {
            let actions = self.actions(events);
            self.law_worker_closes_what_it_opened(events, k - 1);
            self.lemma_actions(events, k - 1);
            let last = actions[k - 1];
            if actions[k] is Exit {
                if last is CloseRelations {
                    assert(closed_before(actions, k));
                } else if last is Exit && closed_before(actions, k - 1) {
                    let i = choose|i: int|
                        0 <= i < k - 1 && #[trigger] actions[i] is CloseRelations;
                    assert(actions[i] is CloseRelations);
                    assert(closed_before(actions, k));
                }
            }
        }
    }
}

/// Assignments were seen to be ready.
pub open spec fn saw_ready(events: Seq<WorkerEvent>, k: int) -> bool {
    exists|i: int| 0 <= i < k && #[trigger] events[i] == (WorkerEvent::Ready { ready: true })
}

/// An assignment to a cluster was read.
pub open spec fn was_given(events: Seq<WorkerEvent>, k: int, cluster_id: usize) -> bool {
    exists|i: int|
        0 <= i < k && ((#[trigger] events[i]) matches WorkerEvent::Assigned {
            assignment: Some(a),
        } && a.cluster_id == cluster_id)
}

/// Since the worker prepared to sleep it has only checked again.
pub open spec fn prepared(actions: Seq<WorkerAction>, k: int) -> bool {
    exists|i: int|
        0 <= i < k && #[trigger] actions[i] is PrepareToSleep && forall|j: int|
            i < j <= k ==> #[trigger] actions[j] is CheckReadyAgain
}

/// The relations were closed.
pub open spec fn closed_before(actions: Seq<WorkerAction>, k: int) -> bool {
    exists|i: int| 0 <= i < k && #[trigger] actions[i] is CloseRelations
}

/// How many entries a worker asks for when its queue holds `available`: its share of them,
/// kept between the two limits.
pub open spec fn target_batch_size(available: int, workers_per_cluster: int) -> int {
    if available > 0 && workers_per_cluster > 0 {
        min(
            max(available / workers_per_cluster, MIN_BATCH_SIZE as int),
            MAX_BATCH_SIZE as int,
        )
    } else {
        MIN_BATCH_SIZE as int
    }
}

pub open spec fn spec_batch_count(available: int, workers_per_cluster: int) -> int {
    min(available, target_batch_size(available, workers_per_cluster))
}

/// How many entries a worker takes from a queue that holds `available`.
pub fn batch_count(available: usize, workers_per_cluster: usize) -> (r: usize)
    ensures
        r == spec_batch_count(available as int, workers_per_cluster as int),
{
    let target: usize = if available > 0 && workers_per_cluster > 0 {
        let fair_share: usize = available / workers_per_cluster;
        if fair_share < MIN_BATCH_SIZE {
            MIN_BATCH_SIZE
        } else if fair_share > MAX_BATCH_SIZE {
            MAX_BATCH_SIZE
        } else {
            fair_share
        }
    } else {
        MIN_BATCH_SIZE
    };
    if available < target {
        available
    } else {
        target
    }
}

/// A worker takes something from every queue that is not empty, never more than there is,
/// and never more than its buffers hold.
pub proof fn law_batch_count_bounds(available: int, workers_per_cluster: int)
    requires
        0 <= available,
    ensures
        0 <= spec_batch_count(available, workers_per_cluster) <= available,
        spec_batch_count(available, workers_per_cluster) <= MAX_BATCH_SIZE,
        spec_batch_count(available, workers_per_cluster) > 0 <==> available > 0,
{
}

/// A worker takes its even share of the entries, but at least 32 as far as they go, and at most
/// 256.
pub proof fn law_batch_is_a_fair_share(available: int, workers: int)
    requires
        0 <= available,
        0 < workers,
    ensures
        ({
            let count = spec_batch_count(available, workers);
            &&& 32 * workers <= available < 257 * workers ==> workers * count <= available
                < workers * (count + 1)
            &&& available < 32 * workers ==> count == if available < 32 {
                available
            } else {
                32
            }
            &&& available >= 257 * workers ==> count == 256
        }),
        spec_batch_count(available, 0) == if available < 32 {
            available
        } else {
            32
        },
{
    let share = available / workers;
    assert(workers * share <= available < workers * (share + 1)) by (nonlinear_arith)
        requires
            share == available / workers,
            workers > 0,
    ;
    assert(available < 32 * workers ==> share < 32) by (nonlinear_arith)
        requires
            workers * share <= available,
            workers > 0,
    ;
    assert(available >= 32 * workers ==> share >= 32) by (nonlinear_arith)
        requires
            available < workers * (share + 1),
            workers > 0,
    ;
    assert(available >= 257 * workers ==> share >= 257) by (nonlinear_arith)
        requires
            available < workers * (share + 1),
            workers > 0,
    ;
    assert(available < 257 * workers ==> share < 257) by (nonlinear_arith)
        requires
            workers * share <= available,
            workers > 0,
    ;
    assert(32 <= share < 257 && workers > 0 ==> share <= available) by (nonlinear_arith)
        requires
            workers * share <= available,
            workers > 0,
    ;
    assert(32 * workers >= 32 && 257 * workers >= 257);
}

/// After how many vectors a worker flushes its neighbor cache: a fraction of the vectors of an
/// average cluster. Workers that share a cluster divide that interval among them, but not below
/// a least one, and never flush more rarely than a single worker would.
pub open spec fn spec_flush_interval(
    total_vectors: int,
    num_clusters: int,
    workers_per_cluster: int,
    rate: u64,
) -> int {
    let base = max(fraction_of(max(total_vectors / max(num_clusters, 1), 1), rate), 1);
    if workers_per_cluster > 1 {
        min(max(base / workers_per_cluster, MIN_SHARED_FLUSH_INTERVAL as int), base)
    } else {
        base
    }
}

pub fn flush_interval(
    total_vectors: usize,
    num_clusters: usize,
    workers_per_cluster: usize,
    rate: u64,
) -> (r: usize)
    ensures
        r == spec_flush_interval(
            total_vectors as int,
            num_clusters as int,
            workers_per_cluster as int,
            rate,
        ),
        r > 0,
{
    let clusters: usize = if num_clusters < 1 {
        1
    } else {
        num_clusters
    };
    let cluster_vectors: usize = total_vectors / clusters;
    let base: usize = flush_rate(
        if cluster_vectors < 1 {
            1
        } else {
            cluster_vectors
        },
        rate,
    );
    if workers_per_cluster > 1 {
        let each: usize = base / workers_per_cluster;
        let shared: usize = if each < MIN_SHARED_FLUSH_INTERVAL {
            MIN_SHARED_FLUSH_INTERVAL
        } else {
            each
        };
        if shared < base {
            shared
        } else {
            base
        }
    } else {
        base
    }
}

/// A worker that builds a cluster alone flushes after a fraction of the vectors of an average
/// cluster, of which there is at least one. Workers that share a cluster divide that interval
/// evenly, down to a hundred vectors; one that is smaller already they keep.
pub proof fn law_workers_divide_the_flush_interval(
    total_vectors: int,
    num_clusters: int,
    workers: int,
    rate: u64,
    average: int,
)
    requires
        0 <= total_vectors,
        0 < num_clusters,
        0 < workers,
        num_clusters * average <= total_vectors < num_clusters * (average + 1),
    ensures
        ({
            let alone = spec_flush_interval(total_vectors, num_clusters, 1, rate);
            let shared = spec_flush_interval(total_vectors, num_clusters, workers, rate);
            let due = fraction_of(
                if average < 1 {
                    1
                } else {
                    average
                },
                rate,
            );
            &&& alone == if due < 1 {
                1
            } else {
                due
            }
            &&& spec_flush_interval(total_vectors, num_clusters, 0, rate) == alone
            &&& alone >= 100 * workers ==> workers * shared <= alone < workers * (shared + 1)
            &&& alone < 100 * workers && workers > 1 ==> shared == if alone < 100 {
                alone
            } else {
                100
            }
        }),
{
    assert(average == total_vectors / num_clusters) by (nonlinear_arith)
        requires
            num_clusters * average <= total_vectors < num_clusters * (average + 1),
            num_clusters > 0,
    ;
    let alone = spec_flush_interval(total_vectors, num_clusters, 1, rate);
    let share = alone / workers;
    assert(workers * share <= alone < workers * (share + 1)) by (nonlinear_arith)
        requires
            share == alone / workers,
            workers > 0,
    ;
    assert(alone >= 100 * workers ==> 100 <= share <= alone) by (nonlinear_arith)
        requires
            workers * share <= alone < workers * (share + 1),
            workers > 0,
    ;
    assert(alone < 100 * workers ==> share < 100) by (nonlinear_arith)
        requires
            workers * share <= alone,
            workers > 0,
    ;
}

/// The more workers build a cluster, the more often each of them flushes, or just as often.
pub proof fn law_more_workers_flush_no_later(
    total_vectors: int,
    num_clusters: int,
    fewer: int,
    more: int,
    rate: u64,
)
    requires
        0 < fewer <= more,
    ensures
        spec_flush_interval(total_vectors, num_clusters, more, rate) <= spec_flush_interval(
            total_vectors,
            num_clusters,
            fewer,
            rate,
        ),
{
    let base = spec_flush_interval(total_vectors, num_clusters, 1, rate);
    assert(base / more <= base / fewer <= base) by (nonlinear_arith)
        requires
            0 < fewer <= more,
            base >= 1,
    ;
}

/// A worker that builds the graph of a cluster.
#[derive(Clone, Copy, Debug, PartialEq, Eq, Structural)]
pub struct ConsumerState {
    pub cluster_id: usize,
    pub worker_number: usize,
    pub workers_per_cluster: usize,
    pub flush_interval: usize,
    /// How many vectors have been inserted.
    pub ntuples: usize,
    /// The start node of the cluster is known to this worker.
    pub start_node_set: bool,
    /// How many entries the batch holds that is being processed.
    pub batch: usize,
}

/// What a worker does next for its cluster. Each action is answered by an event. An `index`
/// is a place in the batch.
#[derive(Clone, Copy, Debug, PartialEq, Eq, Structural)]
pub enum ConsumerAction {
    /// See how many entries the queue holds.
    MeasureQueue,
    PopBatch { count: usize },
    /// Store the node of a vector.
    CreateNode { index: usize },
    /// Agree with the other workers of the cluster on the start node.
    ChooseStartNode { index: usize },
    /// Insert the node into the graph.
    InsertNode { index: usize },
    /// Flush the neighbor cache in the middle of a batch.
    FlushCache { index: usize },
    /// See whether the producer is done and the queue is empty.
    CheckFinished,
    /// Sleep until the queue changes.
    WaitForQueue,
    /// Flush the neighbor cache for the last time.
    FinalFlush,
    Exit,
}

/// What happened when a worker acted for its cluster.
#[derive(Clone, Copy, Debug, PartialEq, Eq, Structural)]
pub enum ConsumerEvent {
    Done,
    Available { entries: usize },
    Popped { entries: usize },
    Finished { finished: bool },
}

impl ConsumerState {
    /// A worker that has built nothing yet.
    pub fn new(
        cluster_id: usize,
        worker_number: usize,
        workers_per_cluster: usize,
        flush_interval: usize,
    ) -> (r: ConsumerState)
        ensures
            r == (ConsumerState {
                cluster_id,
                worker_number,
                workers_per_cluster,
                flush_interval,
                ntuples: 0,
                start_node_set: false,
                batch: 0,
            }),
    {
        ConsumerState {
            cluster_id,
            worker_number,
            workers_per_cluster,
            flush_interval,
            ntuples: 0,
            start_node_set: false,
            batch: 0,
        }
    }

    /// The entry after one of the batch, or back to the queue.
    pub open spec fn after_entry(self, index: usize) -> ConsumerAction {
        if index + 1 < self.batch {
            ConsumerAction::CreateNode { index: (index + 1) as usize }
        } else {
            ConsumerAction::MeasureQueue
        }
    }

    /// The worker and its next action, after an action and what came of it. An event that does
    /// not answer the action changes nothing.
    pub open spec fn spec_next(self, action: ConsumerAction, event: ConsumerEvent) -> (
        ConsumerState,
        ConsumerAction,
    ) {
        match (action, event) {
            (ConsumerAction::MeasureQueue, ConsumerEvent::Available { entries }) => {
                let count = spec_batch_count(entries as int, self.workers_per_cluster as int);
                (
                    self,
                    if count > 0 {
                        ConsumerAction::PopBatch { count: count as usize }
                    } else {
                        ConsumerAction::CheckFinished
                    },
                )
            },
            (ConsumerAction::PopBatch { .. }, ConsumerEvent::Popped { entries }) => (
                ConsumerState { batch: entries, ..self },
                if entries > 0 {
                    ConsumerAction::CreateNode { index: 0 }
                } else {
                    ConsumerAction::MeasureQueue
                },
            ),
            (ConsumerAction::CreateNode { index }, ConsumerEvent::Done) => (
                self,
                if self.start_node_set {
                    ConsumerAction::InsertNode { index }
                } else {
                    ConsumerAction::ChooseStartNode { index }
                },
            ),
            (ConsumerAction::ChooseStartNode { index }, ConsumerEvent::Done) => (
                ConsumerState { start_node_set: true, ..self },
                ConsumerAction::InsertNode { index },
            ),
            (ConsumerAction::InsertNode { index }, ConsumerEvent::Done) => {
                let ntuples = (self.ntuples + 1) as usize;
                (
                    ConsumerState { ntuples, ..self },
                    if ntuples as int % self.flush_interval as int == 0 {
                        ConsumerAction::FlushCache { index }
                    } else {
                        self.after_entry(index)
                    },
                )
            },
            (ConsumerAction::FlushCache { index }, ConsumerEvent::Done) => (
                self,
                self.after_entry(index),
            ),
            (ConsumerAction::CheckFinished, ConsumerEvent::Finished { finished }) => (
                self,
                if finished {
                    ConsumerAction::FinalFlush
                } else {
                    ConsumerAction::WaitForQueue
                },
            ),
            (ConsumerAction::WaitForQueue, ConsumerEvent::Done) => (
                self,
                ConsumerAction::MeasureQueue,
            ),
            (ConsumerAction::FinalFlush, ConsumerEvent::Done) => (self, ConsumerAction::Exit),
            _ => (self, action),
        }
    }

    /// Takes note of what came of an action, and says what to do next.
    pub fn next(&mut self, action: ConsumerAction, event: ConsumerEvent) -> (r: ConsumerAction)
        requires
            old(self).flush_interval > 0,
            old(self).ntuples < usize::MAX,
        ensures
            (*final(self), r) == old(self).spec_next(action, event),
    {
        match (action, event) {
            (ConsumerAction::MeasureQueue, ConsumerEvent::Available { entries }) => {
                let count: usize = batch_count(entries, self.workers_per_cluster);
                if count > 0 {
                    ConsumerAction::PopBatch { count }
                } else {
                    ConsumerAction::CheckFinished
                }
            },
            (ConsumerAction::PopBatch { .. }, ConsumerEvent::Popped { entries }) => {
                self.batch = entries;
                if entries > 0 {
                    ConsumerAction::CreateNode { index: 0 }
                } else {
                    ConsumerAction::MeasureQueue
                }
            },
            (ConsumerAction::CreateNode { index }, ConsumerEvent::Done) => {
                if self.start_node_set {
                    ConsumerAction::InsertNode { index }
                } else {
                    ConsumerAction::ChooseStartNode { index }
                }
            },
            (ConsumerAction::ChooseStartNode { index }, ConsumerEvent::Done) => {
                self.start_node_set = true;
                ConsumerAction::InsertNode { index }
            },
            (ConsumerAction::InsertNode { index }, ConsumerEvent::Done) => {
                self.ntuples = self.ntuples + 1;
                if self.ntuples % self.flush_interval == 0 {
                    ConsumerAction::FlushCache { index }
                } else {
                    self.next_entry(index)
                }
            },
            (ConsumerAction::FlushCache { index }, ConsumerEvent::Done) => self.next_entry(index),
            (ConsumerAction::CheckFinished, ConsumerEvent::Finished { finished }) => {
                if finished {
                    ConsumerAction::FinalFlush
                } else {
                    ConsumerAction::WaitForQueue
                }
            },
            (
                ConsumerAction::WaitForQueue,
                ConsumerEvent::Done,
            ) => ConsumerAction::MeasureQueue,
            (ConsumerAction::FinalFlush, ConsumerEvent::Done) => ConsumerAction::Exit,
            _ => action,
        }
    }

    fn next_entry(&self, index: usize) -> (r: ConsumerAction)
        ensures
            r == self.after_entry(index),
    {
        if index < self.batch && index + 1 < self.batch {
            ConsumerAction::CreateNode { index: index + 1 }
        } else {
            ConsumerAction::MeasureQueue
        }
    }

    /// How many entries of the batch have been popped but not inserted before an action.
    pub open spec fn pending(self, action: ConsumerAction) -> int {
        match action {
            ConsumerAction::CreateNode { index } => self.batch - index,
            ConsumerAction::ChooseStartNode { index } => self.batch - index,
            ConsumerAction::InsertNode { index } => self.batch - index,
            ConsumerAction::FlushCache { index } => self.batch - index - 1,
            _ => 0,
        }
    }
}

/// How a worker stands after some events: its state, its action, how many entries it has
/// popped and inserted, and how often it has chosen a start node.
pub struct ConsumerRun {
    pub state: ConsumerState,
    pub action: ConsumerAction,
    pub popped: int,
    pub inserted: int,
    pub choices: int,
}

/// How a worker stands that was started and then met given events.
pub open spec fn consumer_run(start: ConsumerState, events: Seq<ConsumerEvent>) -> ConsumerRun
    decreases events.len(),
{
    if events.len() == 0 {
        ConsumerRun {
            state: start,
            action: ConsumerAction::MeasureQueue,
            popped: 0,
            inserted: 0,
            choices: 0,
        }
    } else {
        let before = consumer_run(start, events.drop_last());
        let event = events.last();
        let (state, action) = before.state.spec_next(before.action, event);
        ConsumerRun {
            state,
            action,
            popped: before.popped + if before.action is PopBatch && event is Popped {
                event->Popped_entries as int
            } else {
                0
            },
            inserted: before.inserted + if before.action is InsertNode && event is Done {
                1int
            } else {
                0
            },
            choices: before.choices + if before.action is ChooseStartNode && event is Done {
                1int
            } else {
                0
            },
        }
    }
}

/// Whatever happens, every entry that a worker popped is either inserted or still to be
/// inserted from the batch at hand, and a worker chooses a start node once, before it inserts
/// its first vector. So when it leaves, it has inserted all that it popped.
pub proof fn law_every_popped_vector_is_inserted_once(
    start: ConsumerState,
    events: Seq<ConsumerEvent>,
)
    requires
        start.ntuples == 0,
        !start.start_node_set,
        start.flush_interval > 0,
        events.len() <= usize::MAX,
    ensures
        ({
            let run = consumer_run(start, events);
            &&& run.popped == run.inserted + run.state.pending(run.action)
            &&& run.state.pending(run.action) >= 0
            &&& run.state.ntuples == run.inserted <= events.len()
            &&& run.choices == if run.state.start_node_set {
                1int
            } else {
                0int
            }
            &&& run.inserted > 0 ==> run.choices == 1
            &&& run.action is InsertNode ==> run.choices == 1
            &&& run.action is Exit ==> run.popped == run.inserted
        }),
    decreases events.len(),
{
    if events.len() > 0 {
        law_every_popped_vector_is_inserted_once(start, events.drop_last());
        lemma_run_keeps_batch_places(start, events.drop_last());
        lemma_run_keeps_batch_places(start, events);
    }
}

/// How often a worker has flushed its cache in the middle of its work.
pub open spec fn flushes(start: ConsumerState, events: Seq<ConsumerEvent>) -> int
    decreases events.len(),
{
    if events.len() == 0 {
        0
    } else {
        flushes(start, events.drop_last()) + if consumer_run(
            start,
            events.drop_last(),
        ).action is FlushCache && events.last() == ConsumerEvent::Done {
            1int
        } else {
            0int
        }
    }
}

/// A worker flushes its cache once for every full interval of vectors that it has inserted, and
/// at no other time before the last flush.
pub proof fn law_worker_flushes_every_interval(start: ConsumerState, events: Seq<ConsumerEvent>)
    requires
        start.ntuples == 0,
        !start.start_node_set,
        start.flush_interval > 0,
        events.len() <= usize::MAX,
    ensures
        ({
            let run = consumer_run(start, events);
            let due = flushes(start, events) + if run.action is FlushCache {
                1int
            } else {
                0int
            };
            &&& due * start.flush_interval <= run.inserted < (due + 1) * start.flush_interval
            &&& run.action is FlushCache ==> run.inserted == due * start.flush_interval
        }),
    decreases events.len(),
{
    law_every_popped_vector_is_inserted_once(start, events);
    lemma_run_keeps_batch_places(start, events);
    if events.len() > 0 {
        law_worker_flushes_every_interval(start, events.drop_last());
        law_every_popped_vector_is_inserted_once(start, events.drop_last());
        lemma_run_keeps_batch_places(start, events.drop_last());
        let before = consumer_run(start, events.drop_last());
        let interval = start.flush_interval as int;
        let due = flushes(start, events.drop_last());
        let n = before.inserted + 1;
        if before.action is InsertNode && events.last() is Done {
            assert(n % interval == 0 <==> n == (due + 1) * interval) by (nonlinear_arith)
                requires
                    due * interval < n <= (due + 1) * interval,
                    interval > 0,
            ;
            assert((due + 1 + 1) * interval == (due + 1) * interval + interval)
                by (nonlinear_arith);
        }
    } else {
        let interval = start.flush_interval as int;
        assert(0 * interval == 0 && 1 * interval == interval);
        assert(flushes(start, events) == 0);
    }
}

/// What a worker does for its cluster, step by step: it takes something from every queue that
/// is not empty, stores, and inserts each vector of the batch in turn, after a start node was
/// agreed on, and goes back to the queue after the last. Only a queue that is empty and finished
/// makes it leave.
pub proof fn law_worker_goes_through_its_batch(state: ConsumerState, index: usize, entries: usize)
    requires
        state.flush_interval > 0,
        state.ntuples < usize::MAX,
        index < state.batch,
    ensures
        ({
            let (after, next) = state.spec_next(
                ConsumerAction::MeasureQueue,
                ConsumerEvent::Available { entries },
            );
            &&& after == state
            &&& entries == 0 ==> next == ConsumerAction::CheckFinished
            &&& entries > 0 ==> (next matches ConsumerAction::PopBatch { count } && 0 < count
                <= entries && count <= 256 && (entries >= 32 ==> count >= 32))
        }),
        ({
            let (after, next) = state.spec_next(
                ConsumerAction::PopBatch { count: index },
                ConsumerEvent::Popped { entries },
            );
            &&& after == ConsumerState { batch: entries, ..state }
            &&& next == if entries == 0 {
                ConsumerAction::MeasureQueue
            } else {
                ConsumerAction::CreateNode { index: 0 }
            }
        }),
        ({
            let (after, next) = state.spec_next(
                ConsumerAction::CreateNode { index },
                ConsumerEvent::Done,
            );
            let (agreed, then) = after.spec_next(next, ConsumerEvent::Done);
            &&& after == state
            &&& state.start_node_set ==> next == ConsumerAction::InsertNode { index }
            &&& !state.start_node_set ==> {
                &&& next == ConsumerAction::ChooseStartNode { index }
                &&& agreed == ConsumerState { start_node_set: true, ..state }
                &&& then == ConsumerAction::InsertNode { index }
            }
        }),
        ({
            let (after, next) = state.spec_next(
                ConsumerAction::InsertNode { index },
                ConsumerEvent::Done,
            );
            let (flushed, then) = after.spec_next(next, ConsumerEvent::Done);
            let next_entry = if index + 1 == state.batch {
                ConsumerAction::MeasureQueue
            } else {
                ConsumerAction::CreateNode { index: (index + 1) as usize }
            };
            &&& after == ConsumerState { ntuples: (state.ntuples + 1) as usize, ..state }
            &&& if next == (ConsumerAction::FlushCache { index }) {
                flushed == after && then == next_entry
            } else {
                next == next_entry
            }
        }),
        ({
            let (after, next) = state.spec_next(
                ConsumerAction::CheckFinished,
                ConsumerEvent::Finished { finished: false },
            );
            let (woken, then) = after.spec_next(next, ConsumerEvent::Done);
            &&& next == ConsumerAction::WaitForQueue
            &&& woken == state
            &&& then == ConsumerAction::MeasureQueue
        }),
        ({
            let (after, next) = state.spec_next(
                ConsumerAction::CheckFinished,
                ConsumerEvent::Finished { finished: true },
            );
            let (flushed, then) = after.spec_next(next, ConsumerEvent::Done);
            &&& next == ConsumerAction::FinalFlush
            &&& flushed == state
            &&& then == ConsumerAction::Exit
        }),
{
}

/// A worker goes on for its cluster only when its action is answered.
pub proof fn law_consumer_waits_for_its_answer(
    state: ConsumerState,
    action: ConsumerAction,
    event: ConsumerEvent,
)
    ensures
        ({
            let answered = match action {
                ConsumerAction::MeasureQueue => event is Available,
                ConsumerAction::PopBatch { .. } => event is Popped,
                ConsumerAction::CheckFinished => event is Finished,
                ConsumerAction::Exit => false,
                _ => event is Done,
            };
            !answered ==> state.spec_next(action, event) == (state, action)
        }),
{
}

/// The places in the batch that actions speak of exist, and the fixed parts of the state stay.
proof fn lemma_run_keeps_batch_places(start: ConsumerState, events: Seq<ConsumerEvent>)
    ensures
        ({
            let run = consumer_run(start, events);
            &&& match run.action {
                ConsumerAction::CreateNode { index } => index < run.state.batch,
                ConsumerAction::ChooseStartNode { index } => index < run.state.batch
                    && !run.state.start_node_set,
                ConsumerAction::InsertNode { index } => index < run.state.batch
                    && run.state.start_node_set,
                ConsumerAction::FlushCache { index } => index < run.state.batch,
                _ => true,
            }
            &&& run.state.flush_interval == start.flush_interval
            &&& run.state.cluster_id == start.cluster_id
            &&& run.state.worker_number == start.worker_number
            &&& run.state.workers_per_cluster == start.workers_per_cluster
        }),
    decreases events.len(),
{
    if events.len() > 0 {
        lemma_run_keeps_batch_places(start, events.drop_last());
    }
}

/// A worker leaves its cluster only after it was told that the queue is finished, at a time at
/// which it had found nothing in it, and after a last flush.
pub proof fn law_worker_leaves_a_finished_queue(
    start: ConsumerState,
    events: Seq<ConsumerEvent>,
)
    requires
        consumer_run(start, events).action is Exit,
    ensures
        exists|k: int| #[trigger] told_finished(start, events, k),
    decreases events.len(),
{
    let before = consumer_run(start, events.drop_last());
    if before.action is Exit {
        law_worker_leaves_a_finished_queue(start, events.drop_last());
        let k = choose|k: int| #[trigger] told_finished(start, events.drop_last(), k);
        assert(events.drop_last().take(k) =~= events.take(k));
        assert(told_finished(start, events, k));
    } else {
        assert(before.action is FinalFlush);
        lemma_final_flush(start, events.drop_last());
        let k = choose|k: int| #[trigger] told_finished(start, events.drop_last(), k);
        assert(events.drop_last().take(k) =~= events.take(k));
        assert(told_finished(start, events, k));
    }
}

/// The `k`th event told the worker that the queue is finished.
pub open spec fn told_finished(start: ConsumerState, events: Seq<ConsumerEvent>, k: int) -> bool {
    &&& 0 <= k < events.len()
    &&& consumer_run(start, events.take(k)).action is CheckFinished
    &&& events[k] == (ConsumerEvent::Finished { finished: true })
}

proof fn lemma_final_flush(start: ConsumerState, events: Seq<ConsumerEvent>)
    requires
        consumer_run(start, events).action is FinalFlush,
    ensures
        exists|k: int| #[trigger] told_finished(start, events, k),
    decreases events.len(),
{
    let before = consumer_run(start, events.drop_last());
    if before.action is FinalFlush {
        lemma_final_flush(start, events.drop_last());
        let k = choose|k: int| #[trigger] told_finished(start, events.drop_last(), k);
        assert(events.drop_last().take(k) =~= events.take(k));
        assert(told_finished(start, events, k));
    } else {
        let k = events.len() - 1;
        assert(events.take(k) =~= events.drop_last());
        assert(told_finished(start, events, k));
    }
}

} // verus!
