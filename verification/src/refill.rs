//! Clusters that no sample belongs to: each of them gets a part of another cluster. Counts and
//! random numbers are bit patterns of single-precision numbers, on which the caller computes.
use crate::single::{is_smaller, not_a_number, smaller, SIGN, ZERO};
use vstd::prelude::*;

verus! {

/// Where the search for a cluster that is split goes on.
#[derive(Clone, Copy, Debug, PartialEq, Eq, Structural)]
pub enum DonorStep {
    /// This cluster is split.
    Found { cluster: usize },
    /// This cluster is tried next.
    Try { cluster: usize },
}

/// Whether a cluster is split for the sake of an empty one: if a random number is smaller than
/// the cluster's share. Otherwise the next cluster is tried, after the last the first again.
pub fn donor_step(cluster: usize, c: usize, random: u32, share: u32) -> (r: DonorStep)
    requires
        cluster < c,
    ensures
        r == if smaller(random, share) {
            DonorStep::Found { cluster }
        } else if cluster + 1 == c {
            DonorStep::Try { cluster: 0 }
        } else {
            DonorStep::Try { cluster: (cluster + 1) as usize }
        },
{
    if is_smaller(random, share) {
        DonorStep::Found { cluster }
    } else {
        DonorStep::Try {
            cluster: if cluster + 1 == c {
                0
            } else {
                cluster + 1
            },
        }
    }
}

/// A count is zero.
pub open spec fn is_empty_count(count: u32) -> bool {
    count == ZERO || count == SIGN
}

/// The first empty cluster from a place on; the number of clusters if there is none.
pub open spec fn first_empty(counts: Seq<u32>, from: int) -> int
    decreases counts.len() - from,
{
    if from >= counts.len() {
        counts.len() as int
    } else if is_empty_count(counts[from]) {
        from
    } else {
        first_empty(counts, from + 1)
    }
}

/// What comes next while empty clusters are filled.
#[derive(Clone, Copy, Debug, PartialEq, Eq, Structural)]
pub enum RefillAction {
    /// Draw a random number, to decide whether `donor` is split for the empty `cluster`.
    Draw { cluster: usize, donor: usize },
    /// Split `donor`, and let one half of it be `cluster`.
    Split { cluster: usize, donor: usize },
    /// All clusters have been looked at.
    Done,
}

/// What the caller has done.
#[derive(Clone, Copy, Debug, PartialEq, Eq, Structural)]
pub enum RefillEvent {
    /// A random number was drawn; `share` is the donor's part of the samples.
    Drawn { random: u32, share: u32 },
    /// The donor was split: the empty cluster now counts `given`, and the donor `left`.
    Halved { given: u32, left: u32 },
}

impl RefillAction {
    /// The action is about some of `c` clusters.
    pub open spec fn within(self, c: int) -> bool {
        match self {
            RefillAction::Draw { cluster, donor } => cluster < c && donor < c,
            RefillAction::Split { cluster, donor } => cluster < c && donor < c,
            RefillAction::Done => true,
        }
    }
}

/// The search for a donor starts with the first cluster.
pub open spec fn refill_from(counts: Seq<u32>, from: int) -> RefillAction {
    let cluster = first_empty(counts, from);
    if cluster < counts.len() {
        RefillAction::Draw { cluster: cluster as usize, donor: 0 }
    } else {
        RefillAction::Done
    }
}

/// The counts and the next action, after an action and what came of it. An event that does not
/// answer the action changes nothing.
pub open spec fn refill_next(counts: Seq<u32>, action: RefillAction, event: RefillEvent) -> (
    Seq<u32>,
    RefillAction,
) {
    match (action, event) {
        (RefillAction::Draw { cluster, donor }, RefillEvent::Drawn { random, share }) => (
            counts,
            if smaller(random, share) {
                RefillAction::Split { cluster, donor }
            } else {
                RefillAction::Draw {
                    cluster,
                    donor: if donor + 1 == counts.len() {
                        0
                    } else {
                        (donor + 1) as usize
                    },
                }
            },
        ),
        (RefillAction::Split { cluster, donor }, RefillEvent::Halved { given, left }) => {
            let after = counts.update(cluster as int, given).update(donor as int, left);
            (after, refill_from(after, cluster + 1))
        },
        _ => (counts, action),
    }
}

/// The counts and the next action after some events.
pub open spec fn refill_run(counts: Seq<u32>, events: Seq<RefillEvent>) -> (
    Seq<u32>,
    RefillAction,
)
    decreases events.len(),
{
    if events.len() == 0 {
        (counts, refill_from(counts, 0))
    } else {
        let (before, action) = refill_run(counts, events.drop_last());
        refill_next(before, action, events.last())
    }
}

/// Both halves count something.
pub open spec fn halves_count(event: RefillEvent) -> bool {
    event matches RefillEvent::Halved { given, left } ==> !is_empty_count(given)
        && !is_empty_count(left)
}

proof fn lemma_first_empty(counts: Seq<u32>, from: int)
    requires
        0 <= from <= counts.len(),
    ensures
        from <= first_empty(counts, from) <= counts.len(),
        forall|i: int|
            from <= i < first_empty(counts, from) ==> !is_empty_count(#[trigger] counts[i]),
        first_empty(counts, from) < counts.len() ==> is_empty_count(
            counts[first_empty(counts, from)],
        ),
    decreases counts.len() - from,
{
    if from < counts.len() && !is_empty_count(counts[from]) {
        lemma_first_empty(counts, from + 1);
    }
}

/// Empty clusters are filled one after the other, in their order, each before any later one is
/// looked at; and where every half counts something, no cluster is empty in the end.
pub proof fn law_no_cluster_stays_empty(counts: Seq<u32>, events: Seq<RefillEvent>)
    requires
        counts.len() <= usize::MAX,
        forall|k: int| 0 <= k < events.len() ==> halves_count(#[trigger] events[k]),
    ensures
        ({
            let (now, action) = refill_run(counts, events);
            let reached = match action {
                RefillAction::Draw { cluster, .. } => cluster as int,
                RefillAction::Split { cluster, .. } => cluster as int,
                RefillAction::Done => counts.len() as int,
            };
            &&& now.len() == counts.len()
            &&& action.within(counts.len() as int)
            &&& reached <= counts.len()
            &&& reached < counts.len() ==> is_empty_count(now[reached])
            &&& forall|i: int| 0 <= i < reached ==> !is_empty_count(#[trigger] now[i])
        }),
    decreases events.len(),
{
    if events.len() == 0 {
        lemma_first_empty(counts, 0);
    } else {
        assert forall|k: int| 0 <= k < events.drop_last().len() implies halves_count(
            #[trigger] events.drop_last()[k],
        ) by {
            assert(halves_count(events[k]));
        }
        law_no_cluster_stays_empty(counts, events.drop_last());
        let (before, action) = refill_run(counts, events.drop_last());
        let event = events.last();
        assert(halves_count(event));
        if action is Split && event is Halved {
            let (cluster, donor) = (action->Split_cluster, action->Split_donor);
            let after = before.update(cluster as int, event->given).update(
                donor as int,
                event->left,
            );
            lemma_first_empty(after, cluster + 1);
            assert forall|i: int| 0 <= i <= cluster implies !is_empty_count(
                #[trigger] after[i],
            ) by {
                if i < cluster && i != donor {
                    assert(!is_empty_count(before[i]));
                }
            }
        }
    }
}

/// Only a count that is zero, of either sign, makes a cluster empty.
pub proof fn law_zero_counts_are_empty(count: u32)
    requires
        !not_a_number(count),
    ensures
        is_empty_count(count) <==> !smaller(count, 0) && !smaller(0, count),
{
}

/// The first cluster that is empty from a place on is looked after first, and the search for a
/// donor starts with the first cluster; where none is empty, nothing is left to do.
pub proof fn law_first_empty_cluster_is_next(counts: Seq<u32>, from: int)
    requires
        0 <= from <= counts.len() <= usize::MAX,
    ensures
        match refill_from(counts, from) {
            RefillAction::Draw { cluster, donor } => {
                &&& donor == 0
                &&& from <= cluster < counts.len()
                &&& counts[cluster as int] == 0 || counts[cluster as int] == 0x8000_0000
                &&& forall|i: int|
                    from <= i < cluster ==> #[trigger] counts[i] != 0 && counts[i] != 0x8000_0000
            },
            RefillAction::Split { .. } => false,
            RefillAction::Done => forall|i: int|
                from <= i < counts.len() ==> #[trigger] counts[i] != 0 && counts[i] != 0x8000_0000,
        },
{
    lemma_first_empty(counts, from);
}

/// The clusters are tried as donors in turn, after the last the first again, until a number is
/// drawn that is smaller than the share of the one that is tried; that one is split, for the
/// cluster that was empty.
pub proof fn law_donors_are_tried_in_turn(
    counts: Seq<u32>,
    cluster: usize,
    donor: usize,
    random: u32,
    share: u32,
)
    requires
        cluster < counts.len() <= usize::MAX,
        donor < counts.len(),
    ensures
        ({
            let (after, next) = refill_next(
                counts,
                RefillAction::Draw { cluster, donor },
                RefillEvent::Drawn { random, share },
            );
            &&& after == counts
            &&& smaller(random, share) ==> next == RefillAction::Split { cluster, donor }
            &&& !smaller(random, share) ==> (next matches RefillAction::Draw {
                cluster: same,
                donor: other,
            } && same == cluster && other == (donor + 1) % counts.len() as int)
        }),
{
    let n = counts.len() as int;
    if donor + 1 < n {
        vstd::arithmetic::div_mod::lemma_small_mod((donor + 1) as nat, n as nat);
    } else {
        assert(n % n == 0) by (nonlinear_arith)
            requires
                n > 0,
        ;
    }
}

/// A split changes the counts of the empty cluster and of the donor, to what the halves count,
/// and no other; then the next empty cluster is looked for behind the one that was filled.
pub proof fn law_split_fills_the_empty_cluster(
    counts: Seq<u32>,
    cluster: usize,
    donor: usize,
    given: u32,
    left: u32,
    other: int,
)
    requires
        cluster < counts.len() <= usize::MAX,
        donor < counts.len(),
        donor != cluster,
        0 <= other < counts.len(),
    ensures
        ({
            let (after, next) = refill_next(
                counts,
                RefillAction::Split { cluster, donor },
                RefillEvent::Halved { given, left },
            );
            &&& after.len() == counts.len()
            &&& after[cluster as int] == given
            &&& after[donor as int] == left
            &&& other != cluster && other != donor ==> after[other] == counts[other]
            &&& next == refill_from(after, cluster + 1)
        }),
{
}

/// An event that does not answer the action changes nothing.
pub proof fn law_refill_waits_for_its_answer(
    counts: Seq<u32>,
    action: RefillAction,
    event: RefillEvent,
)
    requires
        action is Draw ==> !(event is Drawn),
        action is Split ==> !(event is Halved),
    ensures
        refill_next(counts, action, event) == (counts, action),
{
}

/// The clusters and how many samples each of them counts, while empty ones are filled.
pub struct Refill {
    pub counts: Vec<u32>,
}

impl Refill {
    /// Looks for the first empty cluster from a place on.
    fn look_from(&self, from: usize) -> (r: RefillAction)
        requires
            from <= self.counts@.len(),
        ensures
            r == refill_from(self.counts@, from as int),
    {
        let mut i: usize = from;
        while i < self.counts.len() && self.counts[i] != ZERO && self.counts[i] != SIGN
            invariant
                from <= i <= self.counts@.len(),
                first_empty(self.counts@, from as int) == first_empty(self.counts@, i as int),
            decreases self.counts@.len() - i,
        {
            i = i + 1;
        }
        if i < self.counts.len() {
            RefillAction::Draw { cluster: i, donor: 0 }
        } else {
            RefillAction::Done
        }
    }

    /// The first action.
    pub fn start(&self) -> (r: RefillAction)
        ensures
            r == refill_from(self.counts@, 0),
    {
        self.look_from(0)
    }

    /// Takes note of what came of an action, and says what comes next.
    pub fn next(&mut self, action: RefillAction, event: RefillEvent) -> (r: RefillAction)
        requires
            action.within(old(self).counts@.len() as int),
        ensures
            (final(self).counts@, r) == refill_next(old(self).counts@, action, event),
    {
        match (action, event) {
            (RefillAction::Draw { cluster, donor }, RefillEvent::Drawn { random, share }) => {
                match donor_step(donor, self.counts.len(), random, share) {
                    DonorStep::Found { cluster: donor } => RefillAction::Split { cluster, donor },
                    DonorStep::Try { cluster: donor } => RefillAction::Draw { cluster, donor },
                }
            },
            (RefillAction::Split { cluster, donor }, RefillEvent::Halved { given, left }) => {
                self.counts[cluster] = given;
                self.counts[donor] = left;
                assert(self.counts.len() <= usize::MAX);
                self.look_from(cluster + 1)
            },
            _ => action,
        }
    }
}

} // verus!
