//! The process that reads the table: it gathers vectors of one cluster and pushes them to the
//! cluster's queue together.
use crate::assignments::{counted, ClusterSizes};
use crate::item_pointer::ItemPointerData;
use crate::queue::{valid_entries, BatchProgress, ClusterQueues, Entry, QueueMemory};
use vstd::prelude::*;

verus! {

/// How many vectors are pushed together.
pub const BATCH_SIZE: usize = 64;

/// After how many vectors progress is reported.
pub const PROGRESS_INTERVAL: usize = 100_000;

/// Vectors of one cluster that are waiting to be pushed.
pub struct BatchBuffer {
    pub cluster_id: usize,
    pub entries: Vec<(ItemPointerData, Vec<u32>)>,
}

impl BatchBuffer {
    pub fn new() -> (r: BatchBuffer)
        ensures
            r.cluster_id == 0,
            r.entries@.len() == 0,
    {
        BatchBuffer { cluster_id: 0, entries: Vec::new() }
    }

    pub fn is_full(&self) -> (r: bool)
        ensures
            r == (self.entries@.len() >= BATCH_SIZE),
            r == (self.entries@.len() >= 64),
    {
        self.entries.len() >= BATCH_SIZE
    }

    pub fn clear(&mut self)
        ensures
            final(self).cluster_id == old(self).cluster_id,
            final(self).entries@.len() == 0,
    {
        self.entries.clear();
    }
}

pub struct ProducerState {
    /// How many vectors have been pushed.
    pub ntuples: usize,
    pub batch_buffer: BatchBuffer,
    /// The first entry of the buffer that has not been looked at.
    pub batch_next: usize,
    pub total_vectors: usize,
    pub last_progress_print: usize,
}

/// Entries that point at a row stay in their order when sequences are joined.
proof fn lemma_valid_entries_join(
    a: Seq<(ItemPointerData, Vec<u32>)>,
    b: Seq<(ItemPointerData, Vec<u32>)>,
)
    ensures
        valid_entries(a + b) == valid_entries(a) + valid_entries(b),
    decreases b.len(),
{
    if b.len() == 0 {
        assert(a + b =~= a);
    } else {
        lemma_valid_entries_join(a, b.drop_last());
        assert((a + b).drop_last() =~= a + b.drop_last());
    }
    assert(valid_entries(a + b) =~= valid_entries(a) + valid_entries(b));
}

impl ProducerState {
    /// The buffer is no larger than a batch, and its vectors fit in the queues.
    pub open spec fn wf(self, queues: ClusterQueues) -> bool {
        &&& self.batch_next <= self.batch_buffer.entries@.len() <= BATCH_SIZE
        &&& self.batch_buffer.cluster_id < queues.num_queues
        &&& forall|i: int|
            0 <= i < self.batch_buffer.entries@.len() ==> (
            #[trigger] self.batch_buffer.entries@[i]).1@.len() <= queues.dimensions()
                && self.batch_buffer.entries@[i].1@.len() <= u32::MAX
    }

    /// The vectors of a cluster that are in its queue or on their way there, oldest first.
    pub open spec fn destined(
        self,
        queues: ClusterQueues,
        memory: QueueMemory,
        cluster: int,
    ) -> Seq<Entry> {
        queues.ring(memory, cluster) + if self.batch_buffer.cluster_id == cluster {
            valid_entries(self.batch_buffer.entries@.skip(self.batch_next as int))
        } else {
            Seq::empty()
        }
    }

    pub fn new(total_vectors: usize) -> (r: ProducerState)
        ensures
            r.ntuples == 0,
            r.batch_buffer.cluster_id == 0,
            r.batch_buffer.entries@.len() == 0,
            r.batch_next == 0,
            r.total_vectors == total_vectors,
            r.last_progress_print == 0,
    {
        ProducerState {
            ntuples: 0,
            batch_buffer: BatchBuffer::new(),
            batch_next: 0,
            total_vectors,
            last_progress_print: 0,
        }
    }

    /// Whether the buffer must be pushed before a vector of a cluster can be added to it.
    pub fn must_flush(&self, cluster_id: usize) -> (r: bool)
        ensures
            r == (self.batch_buffer.cluster_id != cluster_id || self.batch_buffer.entries@.len()
                >= BATCH_SIZE),
    {
        self.batch_buffer.cluster_id != cluster_id || self.batch_buffer.is_full()
    }

    /// Notes how far the buffer has been pushed, and clears it once it has been pushed whole.
    pub fn record_push(&mut self, progress: BatchProgress) -> (r: bool)
        requires
            old(self).batch_next <= progress.next <= old(self).batch_buffer.entries@.len(),
            old(self).ntuples + progress.pushed <= usize::MAX,
        ensures
            r == (progress.next == old(self).batch_buffer.entries@.len()),
            final(self).ntuples == old(self).ntuples + progress.pushed,
            final(self).batch_buffer.cluster_id == old(self).batch_buffer.cluster_id,
            r ==> final(self).batch_next == 0 && final(self).batch_buffer.entries@.len() == 0,
            !r ==> final(self).batch_next == progress.next && final(self).batch_buffer.entries@
                == old(self).batch_buffer.entries@,
            final(self).total_vectors == old(self).total_vectors,
            final(self).last_progress_print == old(self).last_progress_print,
    {
        self.ntuples = self.ntuples + progress.pushed;
        if progress.next == self.batch_buffer.entries.len() {
            self.batch_buffer.clear();
            self.batch_next = 0;
            true
        } else {
            self.batch_next = progress.next;
            false
        }
    }

    /// Adds a vector to the buffer, which has been pushed if it had to be.
    pub fn buffer(&mut self, cluster_id: usize, heap_tid: ItemPointerData, vector: &[u32])
        requires
            old(self).batch_buffer.entries@.len() == 0 || (old(self).batch_buffer.cluster_id
                == cluster_id && old(self).batch_buffer.entries@.len() < BATCH_SIZE),
        ensures
            final(self).batch_buffer.cluster_id == cluster_id,
            final(self).batch_buffer.entries@.len() == old(self).batch_buffer.entries@.len() + 1,
            final(self).batch_buffer.entries@.drop_last() == old(self).batch_buffer.entries@,
            final(self).batch_buffer.entries@.last().0 == heap_tid,
            final(self).batch_buffer.entries@.last().1@ == vector@,
            final(self).batch_next == old(self).batch_next,
            final(self).ntuples == old(self).ntuples,
            final(self).total_vectors == old(self).total_vectors,
            final(self).last_progress_print == old(self).last_progress_print,
    {
        let mut copy: Vec<u32> = Vec::new();
        copy.extend_from_slice(vector);
        assert(copy@ =~= vector@);
        self.batch_buffer.cluster_id = cluster_id;
        self.batch_buffer.entries.push((heap_tid, copy));
        assert(self.batch_buffer.entries@.drop_last() =~= old(self).batch_buffer.entries@);
    }

    /// Pushes as much of the buffer as the queue has room for; true once all of it is pushed.
    /// Nothing that is on its way to a queue is lost, doubled or overtaken.
    pub fn flush_batch(&mut self, queues: &ClusterQueues, memory: &mut QueueMemory) -> (r: bool)
        requires
            old(self).wf(*queues),
            queues.owns(*old(memory)),
            old(self).ntuples + BATCH_SIZE <= usize::MAX,
        ensures
            final(self).wf(*queues),
            queues.owns(*final(memory)),
            queues.others_unchanged(
                *old(memory),
                *final(memory),
                old(self).batch_buffer.cluster_id as int,
            ),
            forall|c: int|
                0 <= c < queues.num_queues ==> #[trigger] final(self).destined(
                    *queues,
                    *final(memory),
                    c,
                ) == old(self).destined(*queues, *old(memory), c),
            final(self).batch_buffer.cluster_id == old(self).batch_buffer.cluster_id,
            r ==> final(self).batch_buffer.entries@.len() == 0 && final(self).batch_next == 0,
            !r ==> ({
                let c = old(self).batch_buffer.cluster_id as int;
                queues.ring(*final(memory), c).len() == final(memory).headers@[c].capacity - 1
            }),
            !r ==> final(self).batch_buffer.entries@ == old(self).batch_buffer.entries@,
            !r ==> {
                &&& old(self).batch_next <= final(self).batch_next
                    < final(self).batch_buffer.entries@.len()
                &&& final(self).batch_buffer.entries@[final(self).batch_next as int]
                    .0.spec_is_valid()
            },
            final(self).ntuples - old(self).ntuples == queues.ring(
                *final(memory),
                old(self).batch_buffer.cluster_id as int,
            ).len() - queues.ring(
                *old(memory),
                old(self).batch_buffer.cluster_id as int,
            ).len(),
            final(self).total_vectors == old(self).total_vectors,
            final(self).last_progress_print == old(self).last_progress_print,
    {
        let ghost own = self.batch_buffer.cluster_id as int;
        let ghost entries = self.batch_buffer.entries@;
        let ghost from = self.batch_next as int;
        let progress = queues.push_batch_to_queue(
            memory,
            self.batch_buffer.cluster_id,
            self.batch_buffer.entries.as_slice(),
            self.batch_next,
        );
        proof {
            let next = progress.next as int;
            lemma_valid_entries_count(entries.subrange(from, next));
            assert(entries.skip(from) =~= entries.subrange(from, next) + entries.skip(next));
            lemma_valid_entries_join(entries.subrange(from, next), entries.skip(next));
        }
        let r = self.record_push(progress);
        proof {
            let next = progress.next as int;
            let pushed = valid_entries(entries.subrange(from, next));
            let before = queues.ring(*old(memory), own);
            let left = valid_entries(entries.skip(next));
            assert(self.batch_buffer.entries@.skip(self.batch_next as int) =~= if r {
                Seq::empty()
            } else {
                entries.skip(next)
            });
            if r {
                assert(entries.skip(next) =~= Seq::empty());
            }
            assert forall|c: int| 0 <= c < queues.num_queues implies #[trigger] self.destined(
                *queues,
                *memory,
                c,
            ) == old(self).destined(*queues, *old(memory), c) by {
                if c == own {
                    assert(before + pushed + left =~= before + (pushed + left));
                }
            }
        }
        r
    }

    /// Takes over a vector of a cluster. The buffer is pushed first if it holds vectors of
    /// another cluster or is full, and stays away from the queues otherwise. False if it would
    /// have to wait for a consumer: then nothing was taken over, and the producer tries again
    /// later.
    pub fn push_with_batch(
        &mut self,
        queues: &ClusterQueues,
        memory: &mut QueueMemory,
        cluster_sizes: &mut ClusterSizes,
        cluster_id: usize,
        heap_tid: ItemPointerData,
        vector: &[u32],
    ) -> (r: bool)
        requires
            old(self).wf(*queues),
            queues.owns(*old(memory)),
            old(cluster_sizes).wf(),
            cluster_id < queues.num_queues,
            vector@.len() <= queues.dimensions(),
            vector@.len() <= u32::MAX,
            old(self).ntuples + BATCH_SIZE <= usize::MAX,
        ensures
            final(self).wf(*queues),
            queues.owns(*final(memory)),
            queues.others_unchanged(
                *old(memory),
                *final(memory),
                old(self).batch_buffer.cluster_id as int,
            ),
            final(cluster_sizes).wf(),
            forall|c: int|
                0 <= c < queues.num_queues ==> #[trigger] final(self).destined(
                    *queues,
                    *final(memory),
                    c,
                ) == if r && c == cluster_id && heap_tid.spec_is_valid() {
                    old(self).destined(*queues, *old(memory), c).push((heap_tid, vector@))
                } else {
                    old(self).destined(*queues, *old(memory), c)
                },
            final(cluster_sizes)@ == if r {
                counted(old(cluster_sizes)@, cluster_id as int)
            } else {
                old(cluster_sizes)@
            },
            !r ==> ({
                let c = old(self).batch_buffer.cluster_id as int;
                &&& c != cluster_id || old(self).batch_buffer.entries@.len() >= BATCH_SIZE
                &&& queues.ring(*final(memory), c).len() == final(memory).headers@[c].capacity - 1
            }),
            final(self).ntuples - old(self).ntuples == queues.ring(
                *final(memory),
                old(self).batch_buffer.cluster_id as int,
            ).len() - queues.ring(
                *old(memory),
                old(self).batch_buffer.cluster_id as int,
            ).len(),
            old(self).batch_buffer.cluster_id == cluster_id && old(self).batch_buffer.entries@.len()
                < BATCH_SIZE ==> {
                &&& r
                &&& *final(memory) == *old(memory)
                &&& final(self).batch_buffer.entries@.drop_last()
                    == old(self).batch_buffer.entries@
            },
            r && !(old(self).batch_buffer.cluster_id == cluster_id
                && old(self).batch_buffer.entries@.len() < BATCH_SIZE)
                ==> final(self).batch_buffer.entries@.len() == 1,
            r ==> {
                &&& final(self).batch_buffer.cluster_id == cluster_id
                &&& final(self).batch_buffer.entries@.last().0 == heap_tid
                &&& final(self).batch_buffer.entries@.last().1@ == vector@
            },
            !r ==> {
                &&& final(self).batch_buffer.cluster_id == old(self).batch_buffer.cluster_id
                &&& final(self).batch_buffer.entries@ == old(self).batch_buffer.entries@
                &&& old(self).batch_next <= final(self).batch_next
                    < final(self).batch_buffer.entries@.len()
                &&& final(self).batch_buffer.entries@[final(self).batch_next as int]
                    .0.spec_is_valid()
            },
            final(self).total_vectors == old(self).total_vectors,
            final(self).last_progress_print == old(self).last_progress_print,
    {
        if self.must_flush(cluster_id) {
            if !self.flush_batch(queues, memory) {
                return false;
            }
        }
        let ghost mid = *self;
        let ghost entries = self.batch_buffer.entries@;
        let ghost next = self.batch_next as int;
        self.buffer(cluster_id, heap_tid, vector);
        cluster_sizes.increment(cluster_id);
        proof {
            let after = self.batch_buffer.entries@;
            let added = after.last();
            assert(after.skip(next).drop_last() =~= entries.skip(next));
            assert(after.skip(next).last() == added);
            assert forall|i: int| 0 <= i < after.len() implies (#[trigger] after[i]).1@.len()
                <= queues.dimensions() && after[i].1@.len() <= u32::MAX by {
                if i < after.len() - 1 {
                    assert(after.drop_last()[i] == entries[i]);
                }
            }
            assert forall|c: int| 0 <= c < queues.num_queues implies #[trigger] self.destined(
                *queues,
                *memory,
                c,
            ) == if c == cluster_id && heap_tid.spec_is_valid() {
                old(self).destined(*queues, *old(memory), c).push((heap_tid, vector@))
            } else {
                old(self).destined(*queues, *old(memory), c)
            } by {
                assert(mid.destined(*queues, *memory, c) == old(self).destined(
                    *queues,
                    *old(memory),
                    c,
                ));
                if c == cluster_id {
                    let ring = queues.ring(*memory, c);
                    let waiting = valid_entries(entries.skip(next));
                    if mid.batch_buffer.cluster_id != c {
                        assert(entries.skip(next) =~= Seq::empty());
                    }
                    if heap_tid.spec_is_valid() {
                        assert(ring + waiting.push((heap_tid, vector@)) =~= (ring
                            + waiting).push((heap_tid, vector@)));
                    }
                } else if mid.batch_buffer.cluster_id == c {
                    assert(entries.skip(next) =~= Seq::empty());
                }
            }
        }
        true
    }

    /// Pushes the whole buffer with `push`, which waits for consumers where it has to and tells
    /// how many vectors it pushed.
    pub fn flush_by<P: Fn(usize, &Vec<(ItemPointerData, Vec<u32>)>) -> usize>(&mut self, push: &P)
        requires
            old(self).can_flush_by(*push),
        ensures
            final(self).flushed_by(*push, *old(self)),
            final(self).batch_buffer.cluster_id == old(self).batch_buffer.cluster_id,
            final(self).batch_buffer.entries@.len() == 0,
            final(self).batch_next == 0,
    {
        if self.batch_buffer.entries.len() > 0 {
            let pushed: usize = push(self.batch_buffer.cluster_id, &self.batch_buffer.entries);
            self.record_push(BatchProgress { next: self.batch_buffer.entries.len(), pushed });
        }
    }

    /// Takes over a vector of a cluster. The buffer is pushed first, whole, if it holds vectors
    /// of another cluster or is full.
    pub fn take_row<P: Fn(usize, &Vec<(ItemPointerData, Vec<u32>)>) -> usize>(
        &mut self,
        cluster_id: usize,
        heap_tid: ItemPointerData,
        vector: &[u32],
        push: &P,
    )
        requires
            old(self).can_flush_by(*push),
        ensures
            ({
                let fits = old(self).batch_buffer.cluster_id == cluster_id && old(
                    self).batch_buffer.entries@.len() < BATCH_SIZE;
                &&& fits ==> final(self).same_count(*old(self))
                    && final(self).batch_buffer.entries@.drop_last()
                    == old(self).batch_buffer.entries@
                &&& !fits ==> final(self).flushed_by(*push, *old(self))
                    && final(self).batch_buffer.entries@.len() == 1
            }),
            final(self).batch_buffer.cluster_id == cluster_id,
            final(self).batch_buffer.entries@.len() > 0,
            final(self).batch_buffer.entries@.last().0 == heap_tid,
            final(self).batch_buffer.entries@.last().1@ == vector@,
            final(self).batch_next == 0,
    {
        if self.must_flush(cluster_id) {
            self.flush_by(push);
        }
        self.buffer(cluster_id, heap_tid, vector);
    }

    /// No more was pushed or reported.
    pub open spec fn same_count(self, before: ProducerState) -> bool {
        &&& self.ntuples == before.ntuples
        &&& self.total_vectors == before.total_vectors
        &&& self.last_progress_print == before.last_progress_print
    }

    /// The buffer can be pushed whole.
    pub open spec fn can_flush_by<P: Fn(usize, &Vec<(ItemPointerData, Vec<u32>)>) -> usize>(
        self,
        push: P,
    ) -> bool {
        &&& self.batch_next == 0
        &&& self.batch_buffer.entries@.len() > 0 ==> call_requires(
            push,
            (self.batch_buffer.cluster_id, &self.batch_buffer.entries),
        )
        &&& forall|pushed: usize| #[trigger]
            call_ensures(push, (self.batch_buffer.cluster_id, &self.batch_buffer.entries), pushed)
                ==> self.ntuples + pushed <= usize::MAX
    }

    /// What was buffered before has been pushed, if there was anything, and counted.
    pub open spec fn flushed_by<P: Fn(usize, &Vec<(ItemPointerData, Vec<u32>)>) -> usize>(
        self,
        push: P,
        before: ProducerState,
    ) -> bool {
        &&& before.batch_buffer.entries@.len() == 0 ==> self.ntuples == before.ntuples
        &&& before.batch_buffer.entries@.len() > 0 ==> exists|pushed: usize|
            #[trigger] call_ensures(
                push,
                (before.batch_buffer.cluster_id, &before.batch_buffer.entries),
                pushed,
            ) && self.ntuples == before.ntuples + pushed
        &&& self.total_vectors == before.total_vectors
        &&& self.last_progress_print == before.last_progress_print
    }

    /// Whether progress is reported now: each time the number of vectors that were pushed
    /// reaches another multiple of the interval, or a batch takes it past one.
    pub fn progress_due(&mut self) -> (r: bool)
        ensures
            r == (old(self).ntuples / PROGRESS_INTERVAL > old(self).last_progress_print
                / PROGRESS_INTERVAL),
            final(self).last_progress_print == if r {
                old(self).ntuples
            } else {
                old(self).last_progress_print
            },
            final(self).ntuples == old(self).ntuples,
            final(self).batch_buffer == old(self).batch_buffer,
            final(self).batch_next == old(self).batch_next,
            final(self).total_vectors == old(self).total_vectors,
    {
        let due = self.ntuples / PROGRESS_INTERVAL > self.last_progress_print / PROGRESS_INTERVAL;
        if due {
            self.last_progress_print = self.ntuples;
        }
        due
    }
}

/// Whatever was buffered is handed to `push` whole, be it a single vector, and as many are counted
/// as it says it pushed; where nothing was buffered, nothing is counted.
pub proof fn law_flush_hands_over_the_buffer<
    P: Fn(usize, &Vec<(ItemPointerData, Vec<u32>)>) -> usize,
>(push: P, before: ProducerState, after: ProducerState)
    requires
        after.flushed_by(push, before),
    ensures
        before.batch_buffer.entries@.len() >= 1 ==> exists|pushed: usize|
            #[trigger] call_ensures(
                push,
                (before.batch_buffer.cluster_id, &before.batch_buffer.entries),
                pushed,
            ) && after.ntuples == before.ntuples + pushed,
        before.batch_buffer.entries@.len() == 0 ==> after.ntuples == before.ntuples,
{
}

/// A vector that fits in the buffer is not counted as pushed, nor reported.
pub proof fn law_buffered_vectors_are_not_counted(before: ProducerState, after: ProducerState)
    requires
        after.same_count(before),
    ensures
        after.ntuples == before.ntuples,
        after.total_vectors == before.total_vectors,
        after.last_progress_print == before.last_progress_print,
{
}

/// What is destined for a cluster are the entries of its queue and then, if the buffer holds
/// vectors of the cluster, those of them that are still waiting and point at a row.
pub proof fn law_destined_entries(
    producer: ProducerState,
    queues: ClusterQueues,
    memory: QueueMemory,
    cluster: int,
)
    ensures
        producer.batch_buffer.cluster_id != cluster ==> producer.destined(queues, memory, cluster)
            == queues.ring(memory, cluster),
        producer.batch_buffer.cluster_id == cluster ==> producer.destined(queues, memory, cluster)
            == queues.ring(memory, cluster) + valid_entries(
            producer.batch_buffer.entries@.skip(producer.batch_next as int),
        ),
{
    assert(queues.ring(memory, cluster) + Seq::<Entry>::empty() =~= queues.ring(memory, cluster));
}

proof fn lemma_valid_entries_count(entries: Seq<(ItemPointerData, Vec<u32>)>)
    ensures
        valid_entries(entries).len() <= entries.len(),
    decreases entries.len(),
{
    if entries.len() > 0 {
        lemma_valid_entries_count(entries.drop_last());
    }
}

} // verus!
