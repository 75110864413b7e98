//! The queues through which the process that scans the table hands vectors to the workers
//! that build the clusters. Each cluster has a ring of entries of one size; the rings of all
//! clusters lie one after the other in one piece of shared memory:
//!
//! `[ClusterQueues][queue headers][condition variables][entries]`
//!
//! An entry is a tuple identifier and the length of a vector, followed by the components of
//! the vector, each the bit pattern of a single-precision number. The entries are seen here
//! as words of four bytes, the lower half of a word first.
use crate::item_pointer::ItemPointerData;
use vstd::prelude::*;

verus! {

/// Default capacity for each queue
pub const DEFAULT_QUEUE_CAPACITY: usize = 10240;

/// The size in bytes of `ClusterQueues` in shared memory.
pub const QUEUES_SIZE: usize = 24;

/// The size in bytes of a queue header in shared memory.
pub const QUEUE_HEADER_SIZE: usize = 40;

/// The size in bytes of an entry without its vector.
pub const QUEUE_ENTRY_SIZE: usize = 12;

/// The size in bytes of a component of a vector.
pub const COMPONENT_SIZE: usize = 4;

/// The size in words of an entry without its vector.
pub const ENTRY_HEAD_WORDS: usize = 3;

/// The state of one ring. `head` is the place of the oldest entry, `tail` the place after
/// the youngest; one place always stays free.
#[derive(Clone, Copy, Debug, PartialEq, Eq, Structural)]
pub struct ClusterQueueHeader {
    pub head: usize,
    pub tail: usize,
    pub capacity: usize,
    pub element_size: usize,
    pub finished: bool,
}

/// The fixed part of an entry.
#[derive(Clone, Copy, Debug, PartialEq, Eq, Structural)]
pub struct ClusterQueueEntry {
    pub heap_tid: ItemPointerData,
    pub vector_len: u32,
}

/// What a producer does next about one entry.
#[derive(Clone, Copy, Debug, PartialEq, Eq, Structural)]
pub enum PushStep {
    /// The entry points at no row: leave it out.
    Reject,
    /// The ring is full: wait for a consumer.
    Wait,
    /// Write the entry at `slot`, then let `next_tail` be the tail.
    Write { slot: usize, next_tail: usize },
}

/// What a consumer does next.
#[derive(Clone, Copy, Debug, PartialEq, Eq, Structural)]
pub enum PopStep {
    /// There is no entry.
    Empty,
    /// Read the entry at `slot`, then let `next_head` be the head.
    Take { slot: usize, next_head: usize },
}

/// The place after `i` in a ring.
pub open spec fn next_place(i: int, capacity: int) -> int {
    if i + 1 == capacity {
        0
    } else {
        i + 1
    }
}

impl ClusterQueueHeader {
    pub open spec fn wf(self) -> bool {
        &&& self.head < self.capacity
        &&& self.tail < self.capacity
    }

    /// How many entries the ring holds.
    pub open spec fn spec_len(self) -> int {
        if self.tail >= self.head {
            self.tail - self.head
        } else {
            self.capacity - self.head + self.tail
        }
    }

    /// The place of the `k`th oldest entry.
    pub open spec fn place(self, k: int) -> int {
        if self.head + k < self.capacity {
            self.head + k
        } else {
            self.head + k - self.capacity
        }
    }

    /// An empty ring that is still being filled.
    pub fn new(capacity: usize, element_size: usize) -> (r: ClusterQueueHeader)
        ensures
            r == (ClusterQueueHeader { head: 0, tail: 0, capacity, element_size, finished: false }),
    {
        ClusterQueueHeader { head: 0, tail: 0, capacity, element_size, finished: false }
    }

    /// The ring of which so many entries were ever taken and so many ever pushed. None if more
    /// lie between the two counts than it can hold: then they do not belong together.
    pub fn from_counts(
        taken: usize,
        pushed: usize,
        capacity: usize,
        element_size: usize,
        finished: bool,
    ) -> (r: Option<ClusterQueueHeader>)
        ensures
            r is Some <==> taken <= pushed < taken + capacity,
            r matches Some(header) ==> {
                &&& header.wf()
                &&& header.head == taken as int % capacity as int
                &&& header.tail == pushed as int % capacity as int
                &&& header.spec_len() == pushed - taken
                &&& header.capacity == capacity
                &&& header.element_size == element_size
                &&& header.finished == finished
            },
    {
        if pushed < taken || pushed - taken >= capacity {
            return None;
        }
        proof {
            lemma_counts(taken as int, pushed as int, capacity as int);
        }
        Some(
            ClusterQueueHeader {
                head: taken % capacity,
                tail: pushed % capacity,
                capacity,
                element_size,
                finished,
            },
        )
    }

    fn after(&self, i: usize) -> (r: usize)
        requires
            i < self.capacity,
        ensures
            r == next_place(i as int, self.capacity as int),
    {
        proof {
            if i + 1 < self.capacity {
                vstd::arithmetic::div_mod::lemma_small_mod(
                    (i + 1) as nat,
                    self.capacity as nat,
                );
            } else {
                vstd::arithmetic::div_mod::lemma_mod_self_0(self.capacity as int);
            }
        }
        (i + 1) % self.capacity
    }

    /// What a producer does about an entry that points at `heap_tid`.
    pub fn push_step(&self, heap_tid: ItemPointerData) -> (r: PushStep)
        requires
            self.wf(),
        ensures
            r == if !heap_tid.spec_is_valid() {
                PushStep::Reject
            } else if self.spec_len() == self.capacity - 1 {
                PushStep::Wait
            } else {
                PushStep::Write {
                    slot: self.tail,
                    next_tail: next_place(self.tail as int, self.capacity as int) as usize,
                }
            },
            r == PushStep::Reject <==> heap_tid.ip_posid == 0 || (heap_tid.bi_hi == 0xFFFF
                && heap_tid.bi_lo == 0xFFFF),
    {
        if !heap_tid.is_valid() {
            return PushStep::Reject;
        }
        let next_tail: usize = self.after(self.tail);
        if next_tail != self.head {
            PushStep::Write { slot: self.tail, next_tail }
        } else {
            PushStep::Wait
        }
    }

    /// What a consumer does.
    pub fn pop_step(&self) -> (r: PopStep)
        requires
            self.wf(),
        ensures
            r == if self.spec_len() == 0 {
                PopStep::Empty
            } else {
                PopStep::Take {
                    slot: self.head,
                    next_head: next_place(self.head as int, self.capacity as int) as usize,
                }
            },
    {
        if self.head == self.tail {
            PopStep::Empty
        } else {
            PopStep::Take { slot: self.head, next_head: self.after(self.head) }
        }
    }

    /// How many more entries the ring can take.
    pub fn available_space(&self) -> (r: usize)
        requires
            self.wf(),
        ensures
            r == self.capacity - 1 - self.spec_len(),
    {
        if self.tail >= self.head {
            self.capacity - (self.tail - self.head) - 1
        } else {
            self.head - self.tail - 1
        }
    }

    /// How many entries the ring holds.
    pub fn queue_size(&self) -> (r: usize)
        requires
            self.wf(),
        ensures
            r == self.spec_len(),
    {
        if self.tail >= self.head {
            self.tail - self.head
        } else {
            self.capacity - self.head + self.tail
        }
    }

    /// The producer is done and no entry is left.
    pub fn is_finished(&self) -> (r: bool)
        requires
            self.wf(),
        ensures
            r == (self.finished && self.spec_len() == 0),
    {
        self.finished && self.head == self.tail
    }
}

/// How far apart the places of two counts are.
proof fn lemma_counts(a: int, b: int, capacity: int)
    requires
        0 <= a <= b < a + capacity,
    ensures
        0 <= a % capacity < capacity,
        0 <= b % capacity < capacity,
        b % capacity >= a % capacity ==> b % capacity - a % capacity == b - a,
        b % capacity < a % capacity ==> capacity - a % capacity + b % capacity == b - a,
{
    let (x, y) = (a % capacity, b % capacity);
    let (p, q) = (a / capacity, b / capacity);
    assert(a == p * capacity + x && 0 <= x < capacity) by (nonlinear_arith)
        requires
            capacity > 0,
            p == a / capacity,
            x == a % capacity,
    ;
    assert(b == q * capacity + y && 0 <= y < capacity) by (nonlinear_arith)
        requires
            capacity > 0,
            q == b / capacity,
            y == b % capacity,
    ;
    assert(p <= q <= p + 1) by (nonlinear_arith)
        requires
            p * capacity + x <= q * capacity + y < p * capacity + x + capacity,
            0 <= x < capacity,
            0 <= y < capacity,
    ;
    if q == p + 1 {
        assert(q * capacity == p * capacity + capacity) by (nonlinear_arith)
            requires
                q == p + 1,
        ;
    }
}

/// The places of a ring follow from its counts, and an entry that is taken or pushed moves the
/// head or the tail to the next place.
pub proof fn law_counts_give_places(taken: int, capacity: int, k: int)
    requires
        0 <= taken,
        0 <= k < capacity,
    ensures
        next_place(taken % capacity, capacity) == (taken + 1) % capacity,
        (if taken % capacity + k < capacity {
            taken % capacity + k
        } else {
            taken % capacity + k - capacity
        }) == (taken + k) % capacity,
{
    lemma_counts(taken, taken + k, capacity);
    if capacity > 1 {
        lemma_counts(taken, taken + 1, capacity);
    } else {
        assert(taken % 1 == 0 && (taken + 1) % 1 == 0);
    }
}

/// A worker tries to take the entry at a count: the entry is its own if as many have been taken
/// as it names.
pub struct Attempt {
    pub worker: int,
    pub count: int,
}

/// How many entries have been taken after the first `k` attempts.
pub open spec fn taken_after(attempts: Seq<Attempt>, k: int) -> int
    decreases k,
{
    if k <= 0 {
        0
    } else if attempts[k - 1].count == taken_after(attempts, k - 1) {
        taken_after(attempts, k - 1) + 1
    } else {
        taken_after(attempts, k - 1)
    }
}

/// Attempt `k` takes the entry that it names.
pub open spec fn succeeds(attempts: Seq<Attempt>, k: int) -> bool {
    attempts[k].count == taken_after(attempts, k)
}

/// The entries that a worker has got by the first `k` attempts, in the order in which it got
/// them.
pub open spec fn handed_to(worker: int, pushed: Seq<Entry>, attempts: Seq<Attempt>, k: int) -> Seq<
    Entry,
>
    decreases k,
{
    if k <= 0 {
        Seq::empty()
    } else if succeeds(attempts, k - 1) && attempts[k - 1].worker == worker {
        handed_to(worker, pushed, attempts, k - 1).push(pushed[attempts[k - 1].count])
    } else {
        handed_to(worker, pushed, attempts, k - 1)
    }
}

/// In whatever order workers come to take entries, no entry is taken by two attempts, and
/// entries are taken in their order.
pub proof fn law_counted_entries_are_taken_once(attempts: Seq<Attempt>, i: int, j: int)
    requires
        0 <= i < j < attempts.len(),
        succeeds(attempts, i),
        succeeds(attempts, j),
    ensures
        attempts[i].count < attempts[j].count,
{
    lemma_taken_grows(attempts, i + 1, j);
}

proof fn lemma_taken_grows(attempts: Seq<Attempt>, i: int, j: int)
    requires
        0 <= i <= j,
    ensures
        taken_after(attempts, i) <= taken_after(attempts, j),
    decreases j - i,
{
    if i < j {
        lemma_taken_grows(attempts, i, j - 1);
    }
}

/// Every entry below the number of those that were taken has been taken by some attempt.
pub proof fn law_no_counted_entry_is_skipped(attempts: Seq<Attempt>, e: int)
    requires
        0 <= e < taken_after(attempts, attempts.len() as int),
    ensures
        exists|k: int|
            0 <= k < attempts.len() && #[trigger] succeeds(attempts, k) && attempts[k].count == e,
{
    lemma_some_attempt_took(attempts, e, attempts.len() as int);
}

proof fn lemma_some_attempt_took(attempts: Seq<Attempt>, e: int, n: int)
    requires
        0 <= n <= attempts.len(),
        0 <= e < taken_after(attempts, n),
    ensures
        exists|k: int|
            0 <= k < n && #[trigger] succeeds(attempts, k) && attempts[k].count == e,
    decreases n,
{
    if e < taken_after(attempts, n - 1) {
        lemma_some_attempt_took(attempts, e, n - 1);
        let k = choose|k: int|
            0 <= k < n - 1 && #[trigger] succeeds(attempts, k) && attempts[k].count == e;
        assert(succeeds(attempts, k));
    } else {
        assert(succeeds(attempts, n - 1));
    }
}

/// Two workers that take entries of one queue at the same time, in whatever order their attempts
/// come, share them: what the one gets, what the other gets and what stays in the queue are
/// together exactly the entries that were pushed, each once.
pub proof fn law_workers_share_the_entries(
    pushed: Seq<Entry>,
    attempts: Seq<Attempt>,
    one: int,
    other: int,
)
    requires
        one != other,
        forall|k: int|
            0 <= k < attempts.len() ==> {
                &&& (#[trigger] attempts[k]).worker == one || attempts[k].worker == other
                &&& attempts[k].count < pushed.len()
            },
    ensures
        ({
            let n = attempts.len() as int;
            let taken = taken_after(attempts, n);
            &&& 0 <= taken <= pushed.len()
            &&& handed_to(one, pushed, attempts, n).to_multiset().add(
                handed_to(other, pushed, attempts, n).to_multiset(),
            ).add(pushed.skip(taken).to_multiset()) == pushed.to_multiset()
        }),
{
    broadcast use vstd::seq_lib::group_to_multiset_ensures;

    let n = attempts.len() as int;
    lemma_workers_share(pushed, attempts, one, other, n);
    let taken = taken_after(attempts, n);
    vstd::seq_lib::lemma_multiset_commutative(pushed.take(taken), pushed.skip(taken));
    assert(pushed.take(taken) + pushed.skip(taken) =~= pushed);
}

proof fn lemma_workers_share(
    pushed: Seq<Entry>,
    attempts: Seq<Attempt>,
    one: int,
    other: int,
    k: int,
)
    requires
        one != other,
        0 <= k <= attempts.len(),
        forall|i: int|
            0 <= i < attempts.len() ==> {
                &&& (#[trigger] attempts[i]).worker == one || attempts[i].worker == other
                &&& attempts[i].count < pushed.len()
            },
    ensures
        0 <= taken_after(attempts, k) <= pushed.len(),
        handed_to(one, pushed, attempts, k).to_multiset().add(
            handed_to(other, pushed, attempts, k).to_multiset(),
        ) == pushed.take(taken_after(attempts, k)).to_multiset(),
    decreases k,
{
    broadcast use {
        vstd::seq_lib::group_to_multiset_ensures,
        vstd::multiset::group_multiset_axioms,
    };

    if k > 0 {
        lemma_workers_share(pushed, attempts, one, other, k - 1);
        let last = attempts[k - 1];
        let before = taken_after(attempts, k - 1);
        let (x, y) = (
            handed_to(one, pushed, attempts, k - 1),
            handed_to(other, pushed, attempts, k - 1),
        );
        if succeeds(attempts, k - 1) {
            let entry = pushed[before];
            assert(pushed.take(before + 1) =~= pushed.take(before).push(entry));
            assert(pushed.take(before + 1).to_multiset() =~= pushed.take(before).to_multiset().insert(
                entry,
            ));
            if last.worker == one {
                assert(x.push(entry).to_multiset().add(y.to_multiset())
                    =~= x.to_multiset().add(y.to_multiset()).insert(entry));
            } else {
                assert(x.to_multiset().add(y.push(entry).to_multiset())
                    =~= x.to_multiset().add(y.to_multiset()).insert(entry));
            }
        }
    } else {
        let none = Seq::<Entry>::empty();
        assert(pushed.take(0) =~= none);
        assert(none.to_multiset().add(none.to_multiset()) =~= none.to_multiset());
    }
}

/// A ring never holds more than all of its places but one.
pub proof fn law_ring_size(header: ClusterQueueHeader)
    requires
        header.wf(),
    ensures
        0 <= header.spec_len() <= header.capacity - 1,
{
}

/// Where the ring of a cluster starts among the entries, with entries of `size` units.
pub open spec fn ring_start(headers: Seq<ClusterQueueHeader>, size: int, cluster: int) -> int
    decreases cluster,
{
    if cluster <= 0 {
        0
    } else {
        ring_start(headers, size, cluster - 1) + headers[cluster - 1].capacity * size
    }
}

/// Where an entry starts.
pub open spec fn entry_start(
    headers: Seq<ClusterQueueHeader>,
    size: int,
    cluster: int,
    index: int,
) -> int {
    ring_start(headers, size, cluster) + index * size
}

pub proof fn lemma_ring_start_ordered(
    headers: Seq<ClusterQueueHeader>,
    size: int,
    a: int,
    b: int,
)
    requires
        0 <= a <= b <= headers.len(),
        0 <= size,
    ensures
        0 <= ring_start(headers, size, a) <= ring_start(headers, size, b),
        a < b ==> ring_start(headers, size, a) + headers[a].capacity * size <= ring_start(
            headers,
            size,
            b,
        ),
    decreases b,
{
    if b > 0 {
        let c = headers[b - 1].capacity as int;
        assert(c * size >= 0) by (nonlinear_arith)
            requires
                c >= 0,
                size >= 0,
        ;
        if a < b {
            lemma_ring_start_ordered(headers, size, a, b - 1);
        } else {
            lemma_ring_start_ordered(headers, size, a - 1, b - 1);
        }
    }
}

/// Every entry lies within the memory of the entries, behind those of the clusters before
/// its own, and no two entries share a byte.
pub proof fn law_entries_do_not_overlap(
    headers: Seq<ClusterQueueHeader>,
    size: int,
    a: int,
    i: int,
    b: int,
    j: int,
)
    requires
        0 <= size,
        0 <= a < headers.len(),
        0 <= i < headers[a].capacity,
        0 <= b < headers.len(),
        0 <= j < headers[b].capacity,
        a != b || i != j,
    ensures
        0 <= entry_start(headers, size, a, i),
        entry_start(headers, size, a, i) + size <= ring_start(headers, size, headers.len() as int),
        entry_start(headers, size, a, i) + size <= entry_start(headers, size, b, j) || entry_start(
            headers,
            size,
            b,
            j,
        ) + size <= entry_start(headers, size, a, i),
{
    lemma_entry_in_ring(headers, size, a, i);
    lemma_entry_in_ring(headers, size, b, j);
    if a < b {
        lemma_ring_start_ordered(headers, size, a, b);
    } else if b < a {
        lemma_ring_start_ordered(headers, size, b, a);
    } else if i < j {
        assert(i * size + size <= j * size) by (nonlinear_arith)
            requires
                i < j,
                size >= 0,
        ;
    } else {
        assert(j * size + size <= i * size) by (nonlinear_arith)
            requires
                j < i,
                size >= 0,
        ;
    }
}

proof fn lemma_entry_in_ring(headers: Seq<ClusterQueueHeader>, size: int, a: int, i: int)
    requires
        0 <= size,
        0 <= a < headers.len(),
        0 <= i < headers[a].capacity,
    ensures
        0 <= ring_start(headers, size, a) <= entry_start(headers, size, a, i),
        entry_start(headers, size, a, i) + size <= ring_start(headers, size, a)
            + headers[a].capacity * size,
        ring_start(headers, size, a) + headers[a].capacity * size <= ring_start(
            headers,
            size,
            headers.len() as int,
        ),
{
    let c = headers[a].capacity as int;
    assert(0 <= i * size && i * size + size <= c * size) by (nonlinear_arith)
        requires
            0 <= i < c,
            0 <= size,
    ;
    lemma_ring_start_ordered(headers, size, a, headers.len() as int);
}

/// The queues of all clusters.
#[derive(Clone, Copy, Debug)]
pub struct ClusterQueues {
    pub num_queues: usize,
    /// Size of each entry in bytes
    pub entry_size: usize,
    /// Capacity of a queue that is given none of its own
    pub queue_capacity: usize,
}

/// The memory behind `ClusterQueues`: the queue headers, and the entries as words.
pub struct QueueMemory {
    pub headers: Vec<ClusterQueueHeader>,
    pub data: Vec<u32>,
}

/// A tuple identifier and a vector.
pub type Entry = (ItemPointerData, Seq<u32>);

/// The entry that starts at a word.
pub open spec fn entry_at(data: Seq<u32>, at: int) -> Entry {
    (
        ItemPointerData {
            bi_hi: (data[at] % 0x1_0000) as u16,
            bi_lo: (data[at] / 0x1_0000) as u16,
            ip_posid: (data[at + 1] % 0x1_0000) as u16,
        },
        data.subrange(at + ENTRY_HEAD_WORDS, at + ENTRY_HEAD_WORDS + data[at + 2]),
    )
}

/// An entry lies in memory as the two halves of its block number, the line pointer, the length of
/// the vector and its components, in this order.
pub proof fn law_entry_layout(data: Seq<u32>, at: int, i: int)
    requires
        0 <= at,
        at + 3 + data[at + 2] <= data.len(),
        0 <= i < data[at + 2],
    ensures
        ({
            let (tid, vector) = entry_at(data, at);
            &&& tid.bi_hi + tid.bi_lo * 0x1_0000 == data[at]
            &&& tid.ip_posid == data[at + 1] % 0x1_0000
            &&& vector.len() == data[at + 2]
            &&& vector[i] == data[at + 3 + i]
        }),
{
}

/// The rings lie one after the other from the start, each as long as its capacity has entries,
/// and the entries of a ring lie side by side.
pub proof fn law_rings_lie_side_by_side(
    headers: Seq<ClusterQueueHeader>,
    size: int,
    cluster: int,
    i: int,
)
    requires
        0 <= cluster,
    ensures
        ring_start(headers, size, 0) == 0,
        ring_start(headers, size, cluster + 1) == ring_start(headers, size, cluster)
            + headers[cluster].capacity * size,
        entry_start(headers, size, cluster, 0) == ring_start(headers, size, cluster),
        entry_start(headers, size, cluster, i + 1) == entry_start(headers, size, cluster, i) + size,
{
    assert((i + 1) * size == i * size + size) by (nonlinear_arith);
    assert(0 * size == 0);
}

impl QueueMemory {
    /// The word at which the `k`th oldest entry of a cluster starts.
    pub open spec fn slot(self, words: int, cluster: int, k: int) -> int {
        entry_start(self.headers@, words, cluster, self.headers@[cluster].place(k))
    }

    /// What the queue of a cluster holds, oldest first.
    pub open spec fn ring(self, words: int, cluster: int) -> Seq<Entry> {
        Seq::new(
            self.headers@[cluster].spec_len() as nat,
            |k: int| entry_at(self.data@, self.slot(words, cluster, k)),
        )
    }
}

impl ClusterQueues {
    pub open spec fn wf(self) -> bool {
        &&& self.entry_size >= QUEUE_ENTRY_SIZE
        &&& self.entry_size % COMPONENT_SIZE == 0
    }

    /// The size of an entry in words.
    pub open spec fn words(self) -> int {
        self.entry_size as int / 4
    }

    /// How many components fit in an entry.
    pub open spec fn dimensions(self) -> int {
        self.words() - ENTRY_HEAD_WORDS
    }

    /// The memory has a header for each queue and room for its entries, every ring is in
    /// order, and no entry claims a longer vector than fits.
    pub open spec fn owns(self, memory: QueueMemory) -> bool {
        &&& self.wf()
        &&& memory.headers@.len() == self.num_queues
        &&& forall|c: int| 0 <= c < self.num_queues ==> (#[trigger] memory.headers@[c]).wf()
        &&& ring_start(memory.headers@, self.words(), self.num_queues as int)
            <= memory.data@.len()
        &&& forall|c: int, k: int|
            0 <= c < self.num_queues && 0 <= k < memory.headers@[c].spec_len()
                ==> memory.data@[#[trigger] memory.slot(self.words(), c, k) + 2]
                <= self.dimensions()
    }

    /// What the queue of a cluster holds, oldest first.
    pub open spec fn ring(self, memory: QueueMemory, cluster: int) -> Seq<Entry> {
        memory.ring(self.words(), cluster)
    }

    /// Every queue but one holds what it held, and no queue has become finished or has
    /// another capacity.
    pub open spec fn others_unchanged(
        self,
        before: QueueMemory,
        after: QueueMemory,
        cluster: int,
    ) -> bool {
        &&& forall|c: int|
            0 <= c < self.num_queues && c != cluster ==> {
                &&& #[trigger] self.ring(after, c) == self.ring(before, c)
                &&& after.headers@[c] == before.headers@[c]
            }
        &&& after.headers@[cluster].finished == before.headers@[cluster].finished
        &&& after.headers@[cluster].capacity == before.headers@[cluster].capacity
        &&& after.headers@[cluster].element_size == before.headers@[cluster].element_size
    }
}

/// An operation on the queue of one cluster leaves all other queues and their headers alone, and
/// of its own header what is no place: a queue becomes finished only by being marked so.
pub proof fn law_other_queues_are_left_alone(
    queues: ClusterQueues,
    before: QueueMemory,
    after: QueueMemory,
    cluster: int,
    other: int,
)
    requires
        queues.others_unchanged(before, after, cluster),
        0 <= cluster < queues.num_queues,
        0 <= other < queues.num_queues,
    ensures
        other != cluster ==> queues.ring(after, other) == queues.ring(before, other),
        other != cluster ==> after.headers@[other] == before.headers@[other],
        after.headers@[other].finished == before.headers@[other].finished,
        after.headers@[other].capacity == before.headers@[other].capacity,
        after.headers@[other].element_size == before.headers@[other].element_size,
{
    if other != cluster {
        assert(queues.ring(after, other) == queues.ring(before, other));
    }
}

proof fn lemma_entry_at_frame(a: Seq<u32>, b: Seq<u32>, at: int, words: int)
    requires
        0 <= at,
        ENTRY_HEAD_WORDS <= words,
        at + words <= a.len(),
        a.len() == b.len(),
        a[at + 2] <= words - ENTRY_HEAD_WORDS,
        forall|k: int| at <= k < at + words ==> a[k] == b[k],
    ensures
        entry_at(a, at) == entry_at(b, at),
{
    assert(a[at] == b[at] && a[at + 1] == b[at + 1] && a[at + 2] == b[at + 2]);
    assert(entry_at(a, at).1 =~= entry_at(b, at).1);
}

/// `ring_start` depends on the capacities alone.
proof fn lemma_ring_start_same(
    a: Seq<ClusterQueueHeader>,
    b: Seq<ClusterQueueHeader>,
    size: int,
    cluster: int,
)
    requires
        a.len() == b.len(),
        0 <= cluster <= a.len(),
        forall|c: int| 0 <= c < a.len() ==> (#[trigger] a[c]).capacity == b[c].capacity,
    ensures
        ring_start(a, size, cluster) == ring_start(b, size, cluster),
    decreases cluster,
{
    if cluster > 0 {
        lemma_ring_start_same(a, b, size, cluster - 1);
        assert(a[cluster - 1].capacity == b[cluster - 1].capacity);
    }
}

/// A place within a ring lies within the memory.
proof fn lemma_place_in_memory(queues: ClusterQueues, memory: QueueMemory, cluster: int, i: int)
    requires
        queues.owns(memory),
        0 <= cluster < queues.num_queues,
        0 <= i < memory.headers@[cluster].capacity,
    ensures
        queues.words() >= ENTRY_HEAD_WORDS,
        0 <= ring_start(memory.headers@, queues.words(), cluster),
        0 <= i * queues.words(),
        0 <= entry_start(memory.headers@, queues.words(), cluster, i),
        entry_start(memory.headers@, queues.words(), cluster, i) + queues.words()
            <= memory.data@.len(),
{
    lemma_entry_in_ring(memory.headers@, queues.words(), cluster, i);
}

/// Writing one entry at the free place after the youngest one, and moving the tail there,
/// appends it to its queue and leaves the other queues alone.
proof fn lemma_push(
    queues: ClusterQueues,
    before: QueueMemory,
    after: QueueMemory,
    cluster: int,
    entry: Entry,
)
    requires
        queues.owns(before),
        0 <= cluster < queues.num_queues,
        before.headers@[cluster].spec_len() < before.headers@[cluster].capacity - 1,
        after.headers@ == before.headers@.update(
            cluster,
            ClusterQueueHeader {
                tail: next_place(
                    before.headers@[cluster].tail as int,
                    before.headers@[cluster].capacity as int,
                ) as usize,
                ..before.headers@[cluster]
            },
        ),
        after.data@.len() == before.data@.len(),
        ({
            let at = entry_start(
                before.headers@,
                queues.words(),
                cluster,
                before.headers@[cluster].tail as int,
            );
            &&& forall|k: int|
                0 <= k < before.data@.len() && !(at <= k < at + queues.words())
                    ==> after.data@[k] == before.data@[k]
            &&& entry_at(after.data@, at) == entry
            &&& after.data@[at + 2] <= queues.dimensions()
        }),
    ensures
        queues.owns(after),
        queues.ring(after, cluster) == queues.ring(before, cluster).push(entry),
        queues.others_unchanged(before, after, cluster),
{
    let words = queues.words();
    let at = entry_start(before.headers@, words, cluster, before.headers@[cluster].tail as int);
    assert forall|c: int| 0 <= c <= queues.num_queues implies #[trigger] ring_start(
        after.headers@,
        words,
        c,
    ) == ring_start(before.headers@, words, c) by {
        lemma_ring_start_same(after.headers@, before.headers@, words, c);
    }
    assert forall|c: int, k: int|
        0 <= c < queues.num_queues && 0 <= k < before.headers@[c].spec_len() implies {
        &&& #[trigger] after.slot(words, c, k) == before.slot(words, c, k)
        &&& entry_at(after.data@, after.slot(words, c, k)) == entry_at(
            before.data@,
            before.slot(words, c, k),
        )
        &&& after.data@[after.slot(words, c, k) + 2] <= queues.dimensions()
    } by {
        let h = before.headers@[c];
        let t = before.headers@[cluster];
        assert(h.wf() && t.wf());
        let other = before.slot(words, c, k);
        assert(before.data@[other + 2] <= queues.dimensions());
        law_entries_do_not_overlap(
            before.headers@,
            words,
            cluster,
            t.tail as int,
            c,
            h.place(k),
        );
        lemma_place_in_memory(queues, before, c, h.place(k));
        lemma_entry_at_frame(before.data@, after.data@, other, words);
    }
    let h = before.headers@[cluster];
    let n = h.spec_len();
    assert(h.wf());
    assert(h.place(n) == h.tail);
    assert(after.slot(words, cluster, n) == at);
    assert forall|c: int, k: int|
        0 <= c < queues.num_queues && 0 <= k < after.headers@[c].spec_len() implies after.data@[
    #[trigger] after.slot(words, c, k) + 2] <= queues.dimensions() by {
        if c != cluster || k < n {
            assert(after.slot(words, c, k) == before.slot(words, c, k));
        }
    }
    assert forall|c: int| 0 <= c < queues.num_queues implies (#[trigger] after.headers@[c]).wf() by {
        assert(before.headers@[c].wf());
    }
    assert(queues.ring(after, cluster) =~= queues.ring(before, cluster).push(entry)) by {
        assert forall|k: int| 0 <= k < n implies #[trigger] queues.ring(after, cluster)[k]
            == queues.ring(before, cluster)[k] by {
            assert(after.slot(words, cluster, k) == before.slot(words, cluster, k));
        }
    }
    assert forall|c: int| 0 <= c < queues.num_queues && c != cluster implies #[trigger] queues.ring(
        after,
        c,
    ) == queues.ring(before, c) by {
        assert forall|k: int| 0 <= k < before.headers@[c].spec_len() implies #[trigger] queues.ring(
            after,
            c,
        )[k] == queues.ring(before, c)[k] by {
            assert(after.slot(words, c, k) == before.slot(words, c, k));
        }
        assert(queues.ring(after, c) =~= queues.ring(before, c));
    }
}

/// Moving the head past the oldest entry removes it, and leaves the other queues alone.
proof fn lemma_pop(queues: ClusterQueues, before: QueueMemory, after: QueueMemory, cluster: int)
    requires
        queues.owns(before),
        0 <= cluster < queues.num_queues,
        before.headers@[cluster].spec_len() > 0,
        after.headers@ == before.headers@.update(
            cluster,
            ClusterQueueHeader {
                head: next_place(
                    before.headers@[cluster].head as int,
                    before.headers@[cluster].capacity as int,
                ) as usize,
                ..before.headers@[cluster]
            },
        ),
        after.data@ == before.data@,
    ensures
        queues.owns(after),
        queues.ring(after, cluster) == queues.ring(before, cluster).drop_first(),
        queues.others_unchanged(before, after, cluster),
{
    let words = queues.words();
    assert forall|c: int| 0 <= c <= queues.num_queues implies #[trigger] ring_start(
        after.headers@,
        words,
        c,
    ) == ring_start(before.headers@, words, c) by {
        lemma_ring_start_same(after.headers@, before.headers@, words, c);
    }
    assert(before.headers@[cluster].wf());
    assert forall|c: int| 0 <= c < queues.num_queues implies (#[trigger] after.headers@[c]).wf() by {
        assert(before.headers@[c].wf());
    }
    assert forall|c: int, k: int|
        0 <= c < queues.num_queues && 0 <= k < after.headers@[c].spec_len() implies {
        &&& #[trigger] after.slot(words, c, k) == before.slot(
            words,
            c,
            if c == cluster {
                k + 1
            } else {
                k
            },
        )
        &&& after.data@[after.slot(words, c, k) + 2] <= queues.dimensions()
    } by {
        let k2 = if c == cluster {
            k + 1
        } else {
            k
        };
        assert(before.data@[before.slot(words, c, k2) + 2] <= queues.dimensions());
    }
    assert forall|k: int| 0 <= k < after.headers@[cluster].spec_len() implies #[trigger] queues.ring(
        after,
        cluster,
    )[k] == queues.ring(before, cluster)[k + 1] by {
        assert(after.slot(words, cluster, k) == before.slot(words, cluster, k + 1));
    }
    assert(queues.ring(after, cluster) =~= queues.ring(before, cluster).drop_first());
    assert forall|c: int| 0 <= c < queues.num_queues && c != cluster implies #[trigger] queues.ring(
        after,
        c,
    ) == queues.ring(before, c) by {
        assert forall|k: int| 0 <= k < before.headers@[c].spec_len() implies #[trigger] queues.ring(
            after,
            c,
        )[k] == queues.ring(before, c)[k] by {
            assert(after.slot(words, c, k) == before.slot(words, c, k));
        }
        assert(queues.ring(after, c) =~= queues.ring(before, c));
    }
}

/// The size in bytes of an entry with a vector of `num_dimensions` components.
pub open spec fn entry_bytes(num_dimensions: int) -> int {
    QUEUE_ENTRY_SIZE + num_dimensions * COMPONENT_SIZE
}

/// The bytes that `num_queues` queues of one capacity take, with condition variables of
/// `cv_size` bytes.
pub open spec fn queues_bytes(
    num_queues: int,
    queue_capacity: int,
    num_dimensions: int,
    cv_size: int,
) -> int {
    QUEUES_SIZE + num_queues * QUEUE_HEADER_SIZE + num_queues * cv_size + num_queues
        * queue_capacity * entry_bytes(num_dimensions)
}

/// How many bytes entries and queues take.
pub proof fn law_sizes_in_bytes(n: int, capacity: int, num_dimensions: int, cv_size: int)
    ensures
        entry_bytes(num_dimensions) == 12 + 4 * num_dimensions,
        queues_bytes(n, capacity, num_dimensions, cv_size) == 24 + n * (40 + cv_size) + (n
            * capacity) * (12 + 4 * num_dimensions),
{
    assert(n * (40 + cv_size) == n * 40 + n * cv_size) by (nonlinear_arith);
}

/// Whether an entry was taken over.
#[derive(Clone, Copy, Debug, PartialEq, Eq, Structural)]
pub enum PushOutcome {
    /// The entry is in the queue.
    Pushed,
    /// The entry points at no row.
    Rejected,
    /// The queue has no room: try again after a consumer has taken an entry.
    Full,
}

/// What taking over a sequence of entries leaves: those that point at a row.
pub open spec fn valid_entries(entries: Seq<(ItemPointerData, Vec<u32>)>) -> Seq<Entry>
    decreases entries.len(),
{
    if entries.len() == 0 {
        Seq::empty()
    } else {
        let rest = valid_entries(entries.drop_last());
        let last = entries.last();
        if last.0.spec_is_valid() {
            rest.push((last.0, last.1@))
        } else {
            rest
        }
    }
}

/// Of the entries that are taken over none that points at a row is lost, none that does not is
/// kept, and those that are kept stay in order.
pub proof fn law_entries_that_point_at_a_row_are_kept(
    a: Seq<(ItemPointerData, Vec<u32>)>,
    b: Seq<(ItemPointerData, Vec<u32>)>,
    entry: (ItemPointerData, Vec<u32>),
)
    ensures
        valid_entries(a + b) == valid_entries(a) + valid_entries(b),
        entry.0.ip_posid == 0 || (entry.0.bi_hi == 0xFFFF && entry.0.bi_lo == 0xFFFF)
            ==> valid_entries(seq![entry]) == Seq::<Entry>::empty(),
        entry.0.ip_posid != 0 && !(entry.0.bi_hi == 0xFFFF && entry.0.bi_lo == 0xFFFF)
            ==> valid_entries(seq![entry]) == seq![(entry.0, entry.1@)],
    decreases b.len(),
{
    assert(seq![entry].drop_last() =~= Seq::empty());
    assert(valid_entries(seq![entry].drop_last()) =~= Seq::empty());
    if b.len() > 0 {
        law_entries_that_point_at_a_row_are_kept(a, b.drop_last(), entry);
        assert((a + b).drop_last() =~= a + b.drop_last());
    } else {
        assert(a + b =~= a);
    }
    assert(valid_entries(a + b) =~= valid_entries(a) + valid_entries(b));
}

/// An entry that points at a row is among those that are kept.
proof fn lemma_valid_entry_is_kept(entries: Seq<(ItemPointerData, Vec<u32>)>, i: int)
    requires
        0 <= i < entries.len(),
        entries[i].0.spec_is_valid(),
    ensures
        valid_entries(entries).contains((entries[i].0, entries[i].1@)),
    decreases entries.len(),
{
    let kept = valid_entries(entries);
    let entry = (entries[i].0, entries[i].1@);
    if i == entries.len() - 1 {
        assert(kept[kept.len() - 1] == entry);
    } else {
        let rest = valid_entries(entries.drop_last());
        lemma_valid_entry_is_kept(entries.drop_last(), i);
        let k = choose|k: int| 0 <= k < rest.len() && rest[k] == entry;
        assert(kept[k] == entry);
    }
}

proof fn lemma_pushed_entries_are_in(
    before: Seq<Entry>,
    entries: Seq<(ItemPointerData, Vec<u32>)>,
    from: int,
    next: int,
)
    requires
        0 <= from <= next <= entries.len(),
    ensures
        forall|i: int|
            from <= i < next && (#[trigger] entries[i]).0.ip_posid != 0 && !(entries[i].0.bi_hi
                == 0xFFFF && entries[i].0.bi_lo == 0xFFFF) ==> (before + valid_entries(
                entries.subrange(from, next),
            )).contains((entries[i].0, entries[i].1@)),
{
    let part = entries.subrange(from, next);
    let kept = valid_entries(part);
    assert forall|i: int|
        from <= i < next && (#[trigger] entries[i]).0.ip_posid != 0 && !(entries[i].0.bi_hi
            == 0xFFFF && entries[i].0.bi_lo == 0xFFFF) implies (before + kept).contains(
        (entries[i].0, entries[i].1@),
    ) by {
        assert(part[i - from] == entries[i]);
        lemma_valid_entry_is_kept(part, i - from);
        let entry = (entries[i].0, entries[i].1@);
        let k = choose|k: int| 0 <= k < kept.len() && kept[k] == entry;
        assert((before + kept)[before.len() + k] == entry);
    }
}

/// The entries that a consumer gets who asks for at most `max` of them: the oldest ones that
/// point at a row.
pub open spec fn taken(ring: Seq<Entry>, max: int) -> Seq<Entry>
    decreases ring.len(),
{
    if max <= 0 || ring.len() == 0 {
        Seq::empty()
    } else if ring[0].0.spec_is_valid() {
        seq![ring[0]] + taken(ring.drop_first(), max - 1)
    } else {
        taken(ring.drop_first(), max)
    }
}

/// The entries that are then left.
pub open spec fn left_over(ring: Seq<Entry>, max: int) -> Seq<Entry>
    decreases ring.len(),
{
    if max <= 0 || ring.len() == 0 {
        ring
    } else if ring[0].0.spec_is_valid() {
        left_over(ring.drop_first(), max - 1)
    } else {
        left_over(ring.drop_first(), max)
    }
}

/// Writes an entry into the words from `at` on.
fn write_entry(data: &mut Vec<u32>, at: usize, entry: ClusterQueueEntry, vector: &[u32])
    requires
        at + ENTRY_HEAD_WORDS + vector@.len() <= old(data)@.len(),
        entry.vector_len == vector@.len(),
    ensures
        final(data)@.len() == old(data)@.len(),
        entry_at(final(data)@, at as int) == (entry.heap_tid, vector@),
        final(data)@[at + 2] == vector@.len(),
        forall|k: int|
            0 <= k < old(data)@.len() && !(at <= k < at + ENTRY_HEAD_WORDS + vector@.len())
                ==> final(data)@[k] == old(data)@[k],
{
    let tid = entry.heap_tid;
    assert(data.len() <= usize::MAX);
    data[at] = tid.bi_hi as u32 + tid.bi_lo as u32 * 0x1_0000;
    data[at + 1] = tid.ip_posid as u32;
    data[at + 2] = entry.vector_len;
    let ghost head = data@;
    let ghost start = old(data)@;
    assert(forall|k: int|
        0 <= k < start.len() && !(at <= k < at + ENTRY_HEAD_WORDS) ==> head[k] == start[k]);
    for i in 0..vector.len()
        invariant
            at + ENTRY_HEAD_WORDS + vector@.len() <= data@.len(),
            data@.len() == head.len(),
            data@.len() <= usize::MAX,
            forall|k: int|
                0 <= k < head.len() && !(at + ENTRY_HEAD_WORDS <= k < at + ENTRY_HEAD_WORDS + i)
                    ==> data@[k] == head[k],
            forall|k: int|
                0 <= k < i ==> #[trigger] data@[at + ENTRY_HEAD_WORDS + k] == vector@[k],
    {
        data[at + ENTRY_HEAD_WORDS + i] = vector[i];
    }
    assert(data@[at as int] == head[at as int]);
    assert(data@[at + 1] == head[at + 1]);
    assert(data@[at + 2] == head[at + 2]);
    assert forall|k: int| 0 <= k < vector@.len() implies entry_at(data@, at as int).1[k]
        == vector@[k] by {
        assert(data@[at + ENTRY_HEAD_WORDS + k] == vector@[k]);
    }
    assert(entry_at(data@, at as int).1 =~= vector@);
    assert forall|k: int|
        0 <= k < start.len() && !(at <= k < at + ENTRY_HEAD_WORDS + vector@.len()) implies data@[k]
        == start[k] by {
        assert(head[k] == start[k]);
    }
}

/// Reads the fixed part of the entry at `at`.
fn read_entry(data: &Vec<u32>, at: usize) -> (r: ClusterQueueEntry)
    requires
        at + ENTRY_HEAD_WORDS <= data@.len(),
    ensures
        r.heap_tid == entry_at(data@, at as int).0,
        r.vector_len == data@[at + 2],
{
    assert(data.len() <= usize::MAX);
    ClusterQueueEntry {
        heap_tid: ItemPointerData {
            bi_hi: (data[at] % 0x1_0000) as u16,
            bi_lo: (data[at] / 0x1_0000) as u16,
            ip_posid: (data[at + 1] % 0x1_0000) as u16,
        },
        vector_len: data[at + 2],
    }
}

/// Reads the vector of the entry at `at`.
fn read_vector(data: &Vec<u32>, at: usize, len: usize) -> (r: Vec<u32>)
    requires
        at + ENTRY_HEAD_WORDS + len <= data@.len(),
        len == data@[at + 2],
    ensures
        r@ == entry_at(data@, at as int).1,
{
    let mut r: Vec<u32> = Vec::new();
    assert(data.len() <= usize::MAX);
    for i in 0..len
        invariant
            data@.len() <= usize::MAX,
            at + ENTRY_HEAD_WORDS + len <= data@.len(),
            r@ == data@.subrange(at + ENTRY_HEAD_WORDS, at + ENTRY_HEAD_WORDS + i),
    {
        r.push(data[at + ENTRY_HEAD_WORDS + i]);
        assert(r@ =~= data@.subrange(at + ENTRY_HEAD_WORDS, at + ENTRY_HEAD_WORDS + (i + 1)));
    }
    r
}

impl ClusterQueues {
    /// The size in bytes of an entry.
    fn entry_bytes(num_dimensions: usize) -> (r: usize)
        requires
            entry_bytes(num_dimensions as int) <= usize::MAX,
        ensures
            r == entry_bytes(num_dimensions as int),
    {
        QUEUE_ENTRY_SIZE + num_dimensions * COMPONENT_SIZE
    }

    /// Calculate the total size needed for ClusterQueues with given parameters
    pub fn calculate_size(
        num_queues: usize,
        queue_capacity: usize,
        num_dimensions: usize,
        cv_size: usize,
    ) -> (r: usize)
        requires
            entry_bytes(num_dimensions as int) <= usize::MAX,
            num_queues * queue_capacity <= usize::MAX,
            queues_bytes(
                num_queues as int,
                queue_capacity as int,
                num_dimensions as int,
                cv_size as int,
            ) <= usize::MAX,
        ensures
            r == queues_bytes(
                num_queues as int,
                queue_capacity as int,
                num_dimensions as int,
                cv_size as int,
            ),
    {
        let entry_size: usize = Self::entry_bytes(num_dimensions);
        proof {
            let (n, c, e, v) = (
                num_queues as int,
                queue_capacity as int,
                entry_size as int,
                cv_size as int,
            );
            assert(n * v >= 0 && n * c >= 0) by (nonlinear_arith)
                requires
                    n >= 0,
                    v >= 0,
                    c >= 0,
            ;
            assert(n * c * e >= 0) by (nonlinear_arith)
                requires
                    n * c >= 0,
                    e >= 0,
            ;
        }
        let headers_size: usize = num_queues * QUEUE_HEADER_SIZE;
        let cv_total: usize = num_queues * cv_size;
        let data_size: usize = num_queues * queue_capacity * entry_size;
        QUEUES_SIZE + headers_size + cv_total + data_size
    }

    pub fn new(num_queues: usize, queue_capacity: usize, num_dimensions: usize) -> (r:
        ClusterQueues)
        requires
            entry_bytes(num_dimensions as int) <= usize::MAX,
        ensures
            r.num_queues == num_queues,
            r.queue_capacity == queue_capacity,
            r.entry_size == entry_bytes(num_dimensions as int),
            r.wf(),
            r.dimensions() == num_dimensions,
    {
        ClusterQueues { num_queues, entry_size: Self::entry_bytes(num_dimensions), queue_capacity }
    }

    /// Gives every queue an empty ring of the common capacity.
    pub fn initialize(&self, memory: &mut QueueMemory)
        requires
            old(memory).headers@.len() == self.num_queues,
        ensures
            final(memory).headers@ == Seq::new(
                self.num_queues as nat,
                |i: int|
                    ClusterQueueHeader {
                        head: 0,
                        tail: 0,
                        capacity: self.queue_capacity,
                        element_size: self.entry_size,
                        finished: false,
                    },
            ),
            final(memory).data@ == old(memory).data@,
    {
        let none: [usize; 0] = [];
        self.initialize_with_capacities(memory, &none);
        assert(memory.headers@ =~= Seq::new(
            self.num_queues as nat,
            |i: int|
                ClusterQueueHeader {
                    head: 0,
                    tail: 0,
                    capacity: self.queue_capacity,
                    element_size: self.entry_size,
                    finished: false,
                },
        ));
    }

    /// Gives every queue an empty ring of its own capacity, or of the common one where the
    /// list of capacities is too short.
    pub fn initialize_with_capacities(&self, memory: &mut QueueMemory, queue_capacities: &[usize])
        requires
            old(memory).headers@.len() == self.num_queues,
        ensures
            final(memory).headers@ == Seq::new(
                self.num_queues as nat,
                |i: int|
                    ClusterQueueHeader {
                        head: 0,
                        tail: 0,
                        capacity: if i < queue_capacities@.len() {
                            queue_capacities@[i]
                        } else {
                            self.queue_capacity
                        },
                        element_size: self.entry_size,
                        finished: false,
                    },
            ),
            final(memory).data@ == old(memory).data@,
    {
        for i in 0..self.num_queues
            invariant
                memory.headers@.len() == self.num_queues,
                memory.data@ == old(memory).data@,
                forall|k: int|
                    0 <= k < i ==> #[trigger] memory.headers@[k] == (ClusterQueueHeader {
                        head: 0,
                        tail: 0,
                        capacity: if k < queue_capacities@.len() {
                            queue_capacities@[k]
                        } else {
                            self.queue_capacity
                        },
                        element_size: self.entry_size,
                        finished: false,
                    }),
        {
            let capacity: usize = if i < queue_capacities.len() {
                queue_capacities[i]
            } else {
                self.queue_capacity
            };
            memory.headers[i] = ClusterQueueHeader::new(capacity, self.entry_size);
        }
        assert(memory.headers@ =~= Seq::new(
            self.num_queues as nat,
            |i: int|
                ClusterQueueHeader {
                    head: 0,
                    tail: 0,
                    capacity: if i < queue_capacities@.len() {
                        queue_capacities@[i]
                    } else {
                        self.queue_capacity
                    },
                    element_size: self.entry_size,
                    finished: false,
                },
        ));
    }

    /// Where an entry starts among the words.
    fn entry_word(&self, memory: &QueueMemory, cluster_id: usize, index: usize) -> (r: usize)
        requires
            self.owns(*memory),
            cluster_id < self.num_queues,
            index < memory.headers@[cluster_id as int].capacity,
        ensures
            r == entry_start(
                memory.headers@,
                self.words(),
                cluster_id as int,
                index as int,
            ),
            r + self.words() <= memory.data@.len(),
            self.words() == ENTRY_HEAD_WORDS + self.dimensions(),
    {
        let words: usize = self.entry_size / COMPONENT_SIZE;
        let mut start: usize = 0;
        assert(memory.data.len() <= usize::MAX);
        proof {
            lemma_place_in_memory(*self, *memory, cluster_id as int, index as int);
        }
        for i in 0..cluster_id
            invariant
                self.owns(*memory),
                cluster_id < self.num_queues,
                memory.data@.len() <= usize::MAX,
                words == self.words(),
                start == ring_start(memory.headers@, words as int, i as int),
        {
            proof {
                lemma_ring_start_ordered(
                    memory.headers@,
                    words as int,
                    i as int,
                    self.num_queues as int,
                );
                let c = memory.headers@[i as int].capacity as int;
                assert(c * words >= 0) by (nonlinear_arith)
                    requires
                        c >= 0,
                        words >= 0,
                ;
            }
            start = start + memory.headers[i].capacity * words;
        }
        start + index * words
    }

    /// Push a vector to the queue for a specific cluster
    pub fn push_to_queue(
        &self,
        memory: &mut QueueMemory,
        cluster_id: usize,
        heap_tid: ItemPointerData,
        vector: &[u32],
    ) -> (r: PushOutcome)
        requires
            self.owns(*old(memory)),
            cluster_id < self.num_queues,
            vector@.len() <= self.dimensions(),
            vector@.len() <= u32::MAX,
        ensures
            self.owns(*final(memory)),
            self.others_unchanged(*old(memory), *final(memory), cluster_id as int),
            r == if !heap_tid.spec_is_valid() {
                PushOutcome::Rejected
            } else if self.ring(*old(memory), cluster_id as int).len()
                == old(memory).headers@[cluster_id as int].capacity - 1 {
                PushOutcome::Full
            } else {
                PushOutcome::Pushed
            },
            self.ring(*final(memory), cluster_id as int) == if r == PushOutcome::Pushed {
                self.ring(*old(memory), cluster_id as int).push((heap_tid, vector@))
            } else {
                self.ring(*old(memory), cluster_id as int)
            },
            r == PushOutcome::Rejected <==> heap_tid.ip_posid == 0 || (heap_tid.bi_hi == 0xFFFF
                && heap_tid.bi_lo == 0xFFFF),
    {
        let header = memory.headers[cluster_id];
        assert(memory.headers@[cluster_id as int].wf());
        match header.push_step(heap_tid) {
            PushStep::Reject => PushOutcome::Rejected,
            PushStep::Wait => PushOutcome::Full,
            PushStep::Write { slot, next_tail } => {
                let at: usize = self.entry_word(memory, cluster_id, slot);
                write_entry(
                    &mut memory.data,
                    at,
                    ClusterQueueEntry { heap_tid, vector_len: vector.len() as u32 },
                    vector,
                );
                memory.headers[cluster_id] = ClusterQueueHeader { tail: next_tail, ..header };
                proof {
                    lemma_push(
                        *self,
                        *old(memory),
                        *memory,
                        cluster_id as int,
                        (heap_tid, vector@),
                    );
                }
                PushOutcome::Pushed
            },
        }
    }

    /// Pop a vector from the queue for a specific cluster
    /// Returns Some((heap_tid, vector_data)) if successful, None if queue is empty. An entry
    /// that points at no row is dropped, and counts as none.
    pub fn pop_from_queue(&self, memory: &mut QueueMemory, cluster_id: usize) -> (r: Option<
        (ItemPointerData, Vec<u32>),
    >)
        requires
            self.owns(*old(memory)),
            cluster_id < self.num_queues,
        ensures
            self.owns(*final(memory)),
            self.others_unchanged(*old(memory), *final(memory), cluster_id as int),
            ({
                let ring = self.ring(*old(memory), cluster_id as int);
                &&& self.ring(*final(memory), cluster_id as int) == if ring.len() == 0 {
                    ring
                } else {
                    ring.drop_first()
                }
                &&& match r {
                    Some(entry) => ring.len() > 0 && ring[0].0.spec_is_valid() && ring[0] == (
                        entry.0,
                        entry.1@,
                    ),
                    None => ring.len() == 0 || !ring[0].0.spec_is_valid(),
                }
            }),
    {
        let header = memory.headers[cluster_id];
        assert(memory.headers@[cluster_id as int].wf());
        match header.pop_step() {
            PopStep::Empty => None,
            PopStep::Take { slot, next_head } => {
                let at: usize = self.entry_word(memory, cluster_id, slot);
                let ghost ring = self.ring(*memory, cluster_id as int);
                proof {
                    assert(header.place(0) == slot);
                    assert(memory.slot(self.words(), cluster_id as int, 0) == at);
                    assert(ring[0] == entry_at(memory.data@, at as int));
                }
                let entry = read_entry(&memory.data, at);
                let result = if entry.heap_tid.is_valid() {
                    Some((entry.heap_tid, read_vector(&memory.data, at, entry.vector_len as usize)))
                } else {
                    None
                };
                memory.headers[cluster_id] = ClusterQueueHeader { head: next_head, ..header };
                proof {
                    lemma_pop(*self, *old(memory), *memory, cluster_id as int);
                }
                result
            },
        }
    }

    /// Check if queue is finished (producer done and queue empty)
    pub fn is_queue_finished(&self, memory: &QueueMemory, cluster_id: usize) -> (r: bool)
        requires
            self.owns(*memory),
            cluster_id < self.num_queues,
        ensures
            r == (memory.headers@[cluster_id as int].finished && self.ring(
                *memory,
                cluster_id as int,
            ).len() == 0),
    {
        assert(memory.headers@[cluster_id as int].wf());
        memory.headers[cluster_id].is_finished()
    }

    /// Mark queue as finished (producer done)
    pub fn mark_queue_finished(&self, memory: &mut QueueMemory, cluster_id: usize)
        requires
            cluster_id < old(memory).headers@.len(),
        ensures
            final(memory).headers@ == old(memory).headers@.update(
                cluster_id as int,
                ClusterQueueHeader {
                    finished: true,
                    ..old(memory).headers@[cluster_id as int]
                },
            ),
            final(memory).data@ == old(memory).data@,
    {
        let header = memory.headers[cluster_id];
        memory.headers[cluster_id] = ClusterQueueHeader { finished: true, ..header };
    }

    /// Get the number of available entries in the queue
    pub fn available_space(&self, memory: &QueueMemory, cluster_id: usize) -> (r: usize)
        requires
            self.owns(*memory),
            cluster_id < self.num_queues,
        ensures
            r == memory.headers@[cluster_id as int].capacity - 1 - self.ring(
                *memory,
                cluster_id as int,
            ).len(),
    {
        assert(memory.headers@[cluster_id as int].wf());
        memory.headers[cluster_id].available_space()
    }

    /// Get the number of entries currently in the queue
    pub fn queue_size(&self, memory: &QueueMemory, cluster_id: usize) -> (r: usize)
        requires
            self.owns(*memory),
            cluster_id < self.num_queues,
        ensures
            r == self.ring(*memory, cluster_id as int).len(),
    {
        assert(memory.headers@[cluster_id as int].wf());
        memory.headers[cluster_id].queue_size()
    }
}

/// How far a producer has come with a batch.
#[derive(Clone, Copy, Debug, PartialEq, Eq, Structural)]
pub struct BatchProgress {
    /// The first entry that was not looked at; the number of entries once all were.
    pub next: usize,
    /// How many entries were pushed.
    pub pushed: usize,
}

impl ClusterQueues {
    /// Push multiple vectors to the queue for a specific cluster in batch, starting with entry
    /// `from`. Entries that point at no row are left out. Stops at an entry for which there is
    /// no room: the producer goes on from there once a consumer has taken some.
    pub fn push_batch_to_queue(
        &self,
        memory: &mut QueueMemory,
        cluster_id: usize,
        entries: &[(ItemPointerData, Vec<u32>)],
        from: usize,
    ) -> (r: BatchProgress)
        requires
            self.owns(*old(memory)),
            cluster_id < self.num_queues,
            from <= entries@.len(),
            forall|i: int|
                0 <= i < entries@.len() ==> (#[trigger] entries@[i]).1@.len() <= self.dimensions()
                    && entries@[i].1@.len() <= u32::MAX,
        ensures
            self.owns(*final(memory)),
            self.others_unchanged(*old(memory), *final(memory), cluster_id as int),
            from <= r.next <= entries@.len(),
            self.ring(*final(memory), cluster_id as int) == self.ring(
                *old(memory),
                cluster_id as int,
            ) + valid_entries(entries@.subrange(from as int, r.next as int)),
            r.pushed == valid_entries(entries@.subrange(from as int, r.next as int)).len(),
            r.next < entries@.len() ==> {
                &&& entries@[r.next as int].0.spec_is_valid()
                &&& self.ring(*final(memory), cluster_id as int).len()
                    == final(memory).headers@[cluster_id as int].capacity - 1
            },
            forall|i: int|
                from <= i < r.next && (#[trigger] entries@[i]).0.ip_posid != 0 && !(
                entries@[i].0.bi_hi == 0xFFFF && entries@[i].0.bi_lo == 0xFFFF) ==> self.ring(
                    *final(memory),
                    cluster_id as int,
                ).contains((entries@[i].0, entries@[i].1@)),
    {
        let mut next: usize = from;
        let mut pushed: usize = 0;
        let ghost before = self.ring(*memory, cluster_id as int);
        assert(entries@.subrange(from as int, from as int) =~= Seq::empty());
        assert(before =~= before + valid_entries(
            entries@.subrange(from as int, from as int),
        ));
        while next < entries.len()
            invariant
                self.owns(*memory),
                self.others_unchanged(*old(memory), *memory, cluster_id as int),
                cluster_id < self.num_queues,
                forall|i: int|
                    0 <= i < entries@.len() ==> (#[trigger] entries@[i]).1@.len()
                        <= self.dimensions() && entries@[i].1@.len() <= u32::MAX,
                from <= next <= entries@.len(),
                before == self.ring(*old(memory), cluster_id as int),
                self.ring(*memory, cluster_id as int) == before + valid_entries(
                    entries@.subrange(from as int, next as int),
                ),
                pushed == valid_entries(entries@.subrange(from as int, next as int)).len(),
                pushed <= next - from,
            decreases entries@.len() - next,
        {
            let entry = &entries[next];
            proof {
                assert(entries@.subrange(from as int, next + 1).drop_last() =~= entries@.subrange(
                    from as int,
                    next as int,
                ));
                assert(entries@[next as int].1@.len() <= self.dimensions());
            }
            let ghost step = *memory;
            match self.push_to_queue(memory, cluster_id, entry.0, entry.1.as_slice()) {
                PushOutcome::Pushed => {
                    pushed = pushed + 1;
                    proof {
                        let done = valid_entries(entries@.subrange(from as int, next as int));
                        assert(before + done.push((entry.0, entry.1@)) =~= (before + done).push(
                            (entry.0, entry.1@),
                        ));
                    }
                },
                PushOutcome::Rejected => {},
                PushOutcome::Full => {
                    proof {
                        self.lemma_others_unchanged_trans(
                            *old(memory),
                            step,
                            *memory,
                            cluster_id as int,
                        );
                        lemma_pushed_entries_are_in(before, entries@, from as int, next as int);
                    }
                    return BatchProgress { next, pushed };
                },
            }
            proof {
                self.lemma_others_unchanged_trans(*old(memory), step, *memory, cluster_id as int);
            }
            next = next + 1;
        }
        proof {
            lemma_pushed_entries_are_in(before, entries@, from as int, next as int);
        }
        BatchProgress { next, pushed }
    }

    proof fn lemma_others_unchanged_trans(
        self,
        a: QueueMemory,
        b: QueueMemory,
        c: QueueMemory,
        cluster: int,
    )
        requires
            self.others_unchanged(a, b, cluster),
            self.others_unchanged(b, c, cluster),
        ensures
            self.others_unchanged(a, c, cluster),
    {
        assert forall|i: int| 0 <= i < self.num_queues && i != cluster implies {
            &&& #[trigger] self.ring(c, i) == self.ring(a, i)
            &&& c.headers@[i] == a.headers@[i]
        } by {
            assert(self.ring(c, i) == self.ring(b, i));
            assert(self.ring(b, i) == self.ring(a, i));
            assert(c.headers@[i] == b.headers@[i]);
            assert(b.headers@[i] == a.headers@[i]);
        }
    }

    /// Pop multiple vectors from the queue for a specific cluster in batch
    /// Returns the number of vectors popped, stored in the provided buffer. Entries that point
    /// at no row are dropped.
    pub fn pop_batch_from_queue(
        &self,
        memory: &mut QueueMemory,
        cluster_id: usize,
        max_count: usize,
        heap_tids: &mut [ItemPointerData],
        vectors: &mut [Vec<u32>],
    ) -> (r: usize)
        requires
            self.owns(*old(memory)),
            cluster_id < self.num_queues,
            max_count <= old(heap_tids)@.len() || taken(
                self.ring(*old(memory), cluster_id as int),
                max_count as int,
            ).len() <= old(heap_tids)@.len(),
            max_count <= old(vectors)@.len() || taken(
                self.ring(*old(memory), cluster_id as int),
                max_count as int,
            ).len() <= old(vectors)@.len(),
        ensures
            self.owns(*final(memory)),
            self.others_unchanged(*old(memory), *final(memory), cluster_id as int),
            ({
                let ring = self.ring(*old(memory), cluster_id as int);
                &&& self.ring(*final(memory), cluster_id as int) == left_over(
                    ring,
                    max_count as int,
                )
                &&& r == taken(ring, max_count as int).len()
                &&& r <= max_count
                &&& forall|i: int|
                    0 <= i < r ==> #[trigger] taken(ring, max_count as int)[i] == (
                        final(heap_tids)@[i],
                        final(vectors)@[i]@,
                    )
            }),
            final(heap_tids)@.len() == old(heap_tids)@.len(),
            final(vectors)@.len() == old(vectors)@.len(),
            forall|i: int|
                r <= i < old(heap_tids)@.len() ==> final(heap_tids)@[i] == old(heap_tids)@[i],
            forall|i: int|
                r <= i < old(vectors)@.len() ==> final(vectors)@[i] == old(vectors)@[i],
    {
        let mut popped: usize = 0;
        let ghost start = self.ring(*memory, cluster_id as int);
        let ghost all = taken(start, max_count as int);
        let ghost mut seen: Seq<Entry> = Seq::empty();
        assert(seen + taken(start, max_count as int) =~= all);
        proof {
            self.lemma_others_unchanged_self(*memory, cluster_id as int);
        }
        while popped < max_count && self.queue_size(memory, cluster_id) > 0
            invariant
                self.owns(*memory),
                self.others_unchanged(*old(memory), *memory, cluster_id as int),
                cluster_id < self.num_queues,
                popped <= max_count,
                max_count <= heap_tids@.len() || all.len() <= heap_tids@.len(),
                max_count <= vectors@.len() || all.len() <= vectors@.len(),
                heap_tids@.len() == old(heap_tids)@.len(),
                vectors@.len() == old(vectors)@.len(),
                start == self.ring(*old(memory), cluster_id as int),
                all == taken(start, max_count as int),
                left_over(start, max_count as int) == left_over(
                    self.ring(*memory, cluster_id as int),
                    max_count - popped,
                ),
                seen + taken(self.ring(*memory, cluster_id as int), max_count - popped) == all,
                seen.len() == popped,
                forall|i: int|
                    0 <= i < popped ==> #[trigger] seen[i] == (heap_tids@[i], vectors@[i]@),
                forall|i: int|
                    popped <= i < heap_tids@.len() ==> heap_tids@[i] == old(heap_tids)@[i],
                forall|i: int| popped <= i < vectors@.len() ==> vectors@[i] == old(vectors)@[i],
            decreases self.ring(*memory, cluster_id as int).len(),
        {
            let ghost step = *memory;
            let ghost ring = self.ring(*memory, cluster_id as int);
            let ghost (tids, vecs) = (heap_tids@, vectors@);
            match self.pop_from_queue(memory, cluster_id) {
                Some((heap_tid, vector)) => {
                    proof {
                        let rest = taken(ring.drop_first(), max_count - popped - 1);
                        assert(seen + (seq![ring[0]] + rest) =~= seen.push(ring[0]) + rest);
                        seen = seen.push(ring[0]);
                    }
                    heap_tids[popped] = heap_tid;
                    vectors[popped] = vector;
                    popped = popped + 1;
                    assert forall|i: int| 0 <= i < popped implies #[trigger] seen[i] == (
                        heap_tids@[i],
                        vectors@[i]@,
                    ) by {
                        if i < popped - 1 {
                            assert(heap_tids@[i] == tids[i] && vectors@[i] == vecs[i]);
                        }
                    }
                },
                None => {},
            }
            proof {
                self.lemma_others_unchanged_trans(*old(memory), step, *memory, cluster_id as int);
            }
        }
        proof {
            assert(taken(self.ring(*memory, cluster_id as int), max_count - popped)
                =~= Seq::empty());
            assert(seen =~= all);
        }
        popped
    }

    proof fn lemma_others_unchanged_self(self, a: QueueMemory, cluster: int)
        ensures
            self.others_unchanged(a, a, cluster),
    {
    }

    /// Get offset of queue headers array, in bytes from the start of the shared memory
    pub fn get_headers_ptr(&self) -> (r: usize)
        ensures
            r == QUEUES_SIZE,
    {
        QUEUES_SIZE
    }

    /// The offset of the condition variables.
    pub open spec fn cv_offset(self) -> int {
        QUEUES_SIZE + self.num_queues * QUEUE_HEADER_SIZE
    }

    /// The offset of the entries.
    pub open spec fn data_offset(self, cv_size: int) -> int {
        self.cv_offset() + self.num_queues * cv_size
    }

    /// Get offset of condition variables array
    pub fn get_cv_ptr(&self) -> (r: usize)
        requires
            self.cv_offset() <= usize::MAX,
        ensures
            r == self.cv_offset(),
    {
        QUEUES_SIZE + self.num_queues * QUEUE_HEADER_SIZE
    }

    /// Get offset of queue data storage
    pub fn get_data_ptr(&self, cv_size: usize) -> (r: usize)
        requires
            self.data_offset(cv_size as int) <= usize::MAX,
        ensures
            r == self.data_offset(cv_size as int),
    {
        proof {
            let (n, v) = (self.num_queues as int, cv_size as int);
            assert(n * v >= 0) by (nonlinear_arith)
                requires
                    n >= 0,
                    v >= 0,
            ;
        }
        self.get_cv_ptr() + self.num_queues * cv_size
    }

    /// Get offset of a specific queue entry
    /// For dynamic capacities, this calculates offset based on actual header capacities
    pub fn get_entry(
        &self,
        headers: &[ClusterQueueHeader],
        cv_size: usize,
        cluster_id: usize,
        index: usize,
    ) -> (r: usize)
        requires
            cluster_id < headers@.len(),
            index < headers@[cluster_id as int].capacity,
            self.data_offset(cv_size as int) + ring_start(
                headers@,
                self.entry_size as int,
                headers@.len() as int,
            ) <= usize::MAX,
        ensures
            r == self.data_offset(cv_size as int) + entry_start(
                headers@,
                self.entry_size as int,
                cluster_id as int,
                index as int,
            ),
    {
        let size: usize = self.entry_size;
        proof {
            lemma_entry_in_ring(headers@, size as int, cluster_id as int, index as int);
        }
        let mut offset: usize = 0;
        for i in 0..cluster_id
            invariant
                cluster_id < headers@.len(),
                ring_start(headers@, size as int, headers@.len() as int) <= usize::MAX,
                offset == ring_start(headers@, size as int, i as int),
        {
            proof {
                lemma_ring_start_ordered(headers@, size as int, i as int, headers@.len() as int);
                let c = headers@[i as int].capacity as int;
                assert(c * size >= 0) by (nonlinear_arith)
                    requires
                        c >= 0,
                        size >= 0,
                ;
            }
            offset = offset + headers[i].capacity * size;
        }
        proof {
            let i = index as int;
            assert(i * size >= 0) by (nonlinear_arith)
                requires
                    i >= 0,
                    size >= 0,
            ;
        }
        self.get_data_ptr(cv_size) + (offset + index * size)
    }

    /// Get offset of the queue header for a specific cluster
    pub fn get_header(&self, cluster_id: usize) -> (r: usize)
        requires
            cluster_id < self.num_queues,
            self.cv_offset() <= usize::MAX,
        ensures
            r == QUEUES_SIZE + cluster_id * QUEUE_HEADER_SIZE,
    {
        self.get_headers_ptr() + cluster_id * QUEUE_HEADER_SIZE
    }

    /// Get offset of the condition variable for a specific cluster
    pub fn get_cv(&self, cluster_id: usize, cv_size: usize) -> (r: usize)
        requires
            cluster_id < self.num_queues,
            self.data_offset(cv_size as int) <= usize::MAX,
        ensures
            r == self.cv_offset() + cluster_id * cv_size,
    {
        proof {
            let (i, n, v) = (cluster_id as int, self.num_queues as int, cv_size as int);
            assert(0 <= i * v <= n * v) by (nonlinear_arith)
                requires
                    0 <= i <= n,
                    v >= 0,
            ;
        }
        self.get_cv_ptr() + cluster_id * cv_size
    }
}

/// The entries of a ring that point at a row.
pub open spec fn valid_part(ring: Seq<Entry>) -> Seq<Entry>
    decreases ring.len(),
{
    if ring.len() == 0 {
        Seq::empty()
    } else if ring[0].0.spec_is_valid() {
        seq![ring[0]] + valid_part(ring.drop_first())
    } else {
        valid_part(ring.drop_first())
    }
}

/// Of a ring, exactly the entries whose line pointer is not zero and whose block is not the
/// invalid one count as rows, in their order.
pub proof fn law_rows_of_a_ring(a: Seq<Entry>, b: Seq<Entry>, entry: Entry)
    ensures
        valid_part(a + b) == valid_part(a) + valid_part(b),
        entry.0.ip_posid == 0 || (entry.0.bi_hi == 0xFFFF && entry.0.bi_lo == 0xFFFF)
            ==> valid_part(seq![entry]) == Seq::<Entry>::empty(),
        entry.0.ip_posid != 0 && !(entry.0.bi_hi == 0xFFFF && entry.0.bi_lo == 0xFFFF)
            ==> valid_part(seq![entry]) == seq![entry],
{
    lemma_valid_part_joins(a, b);
    assert(seq![entry].drop_first() =~= Seq::empty());
    assert(valid_part(seq![entry].drop_first()) =~= Seq::empty());
}

/// What a consumer takes are the rows of a first part of the ring, and what it leaves is all of
/// the rest: the part ends with the last row that was asked for, or with the ring.
pub proof fn law_batch_is_the_first_part(ring: Seq<Entry>, max: int)
    requires
        0 <= max,
    ensures
        exists|k: int|
            {
                &&& 0 <= k <= ring.len()
                &&& taken(ring, max) == valid_part(ring.take(k))
                &&& left_over(ring, max) == #[trigger] ring.skip(k)
                &&& k == ring.len() || taken(ring, max).len() == max
                &&& k > 0 && taken(ring, max).len() == max ==> k == ring.len() || (
                ring[k - 1].0.ip_posid != 0 && !(ring[k - 1].0.bi_hi == 0xFFFF
                    && ring[k - 1].0.bi_lo == 0xFFFF))
            },
    decreases ring.len(),
{
    if max > 0 && ring.len() > 0 {
        let rest = ring.drop_first();
        let less = if ring[0].0.spec_is_valid() {
            max - 1
        } else {
            max
        };
        law_batch_is_the_first_part(rest, less);
        let k = choose|k: int|
            {
                &&& 0 <= k <= rest.len()
                &&& taken(rest, less) == valid_part(rest.take(k))
                &&& left_over(rest, less) == #[trigger] rest.skip(k)
                &&& k == rest.len() || taken(rest, less).len() == less
                &&& k > 0 && taken(rest, less).len() == less ==> k == rest.len() || (
                rest[k - 1].0.ip_posid != 0 && !(rest[k - 1].0.bi_hi == 0xFFFF
                    && rest[k - 1].0.bi_lo == 0xFFFF))
            };
        assert(ring.take(k + 1).drop_first() =~= rest.take(k));
        assert(ring.skip(k + 1) =~= rest.skip(k));
        if k > 0 {
            assert(ring[k] == rest[k - 1]);
        } else if !ring[0].0.spec_is_valid() {
            assert(rest.take(0) =~= Seq::empty());
            assert(taken(rest, less).len() == 0);
        }
        assert(left_over(ring, max) == ring.skip(k + 1));
    } else {
        assert(ring.take(0) =~= Seq::empty());
        assert(ring.skip(0) =~= ring);
    }
}

/// No vector is lost, handed out twice or overtaken: what a consumer takes and what it leaves
/// make up, in this order, all entries that point at a row. It takes as many as it asks for
/// unless there are fewer.
pub proof fn law_batches_conserve_entries(ring: Seq<Entry>, max: int)
    requires
        0 <= max,
    ensures
        taken(ring, max) + valid_part(left_over(ring, max)) == valid_part(ring),
        taken(ring, max).len() <= max,
        taken(ring, max).len() < max ==> left_over(ring, max).len() == 0,
    decreases ring.len(),
{
    if max > 0 && ring.len() > 0 {
        let rest = ring.drop_first();
        if ring[0].0.spec_is_valid() {
            law_batches_conserve_entries(rest, max - 1);
            assert(seq![ring[0]] + (taken(rest, max - 1) + valid_part(left_over(rest, max - 1)))
                =~= taken(ring, max) + valid_part(left_over(ring, max)));
        } else {
            law_batches_conserve_entries(rest, max);
        }
    } else {
        assert(taken(ring, max) + valid_part(left_over(ring, max)) =~= valid_part(ring));
    }
}

/// Where all entries point at a row, the oldest come out first and the rest stay in order.
pub proof fn law_first_in_first_out(ring: Seq<Entry>, max: int)
    requires
        0 <= max,
        forall|i: int| 0 <= i < ring.len() ==> (#[trigger] ring[i]).0.spec_is_valid(),
    ensures
        max <= ring.len() ==> taken(ring, max) == ring.take(max) && left_over(ring, max)
            == ring.skip(max),
        max > ring.len() ==> taken(ring, max) == ring && left_over(ring, max).len() == 0,
    decreases ring.len(),
{
    if max > 0 && ring.len() > 0 {
        let rest = ring.drop_first();
        assert forall|i: int| 0 <= i < rest.len() implies (#[trigger] rest[i]).0.spec_is_valid() by {
            assert(rest[i] == ring[i + 1]);
        }
        assert(ring[0].0.spec_is_valid());
        law_first_in_first_out(rest, max - 1);
        if max <= ring.len() {
            assert(seq![ring[0]] + rest.take(max - 1) =~= ring.take(max));
            assert(rest.skip(max - 1) =~= ring.skip(max));
        } else {
            assert(seq![ring[0]] + rest =~= ring);
        }
    } else if max == 0 {
        assert(ring.take(0) =~= Seq::empty());
        assert(ring.skip(0) =~= ring);
    } else {
        assert(taken(ring, max) =~= ring);
    }
}

/// Queues that were just given their rings are in order and empty.
pub proof fn law_fresh_queues_are_empty(queues: ClusterQueues, memory: QueueMemory, cluster: int)
    requires
        queues.wf(),
        memory.headers@.len() == queues.num_queues,
        forall|c: int|
            0 <= c < queues.num_queues ==> {
                &&& (#[trigger] memory.headers@[c]).head == 0
                &&& memory.headers@[c].tail == 0
                &&& memory.headers@[c].capacity > 0
            },
        ring_start(memory.headers@, queues.words(), queues.num_queues as int)
            <= memory.data@.len(),
        0 <= cluster < queues.num_queues,
    ensures
        queues.owns(memory),
        queues.ring(memory, cluster).len() == 0,
{
}

/// Marking a queue finished changes nothing that the queues hold.
pub proof fn law_finishing_keeps_entries(
    queues: ClusterQueues,
    before: QueueMemory,
    after: QueueMemory,
    finished: int,
    cluster: int,
)
    requires
        queues.owns(before),
        0 <= finished < queues.num_queues,
        0 <= cluster < queues.num_queues,
        after.data@ == before.data@,
        after.headers@ == before.headers@.update(
            finished,
            ClusterQueueHeader { finished: true, ..before.headers@[finished] },
        ),
    ensures
        queues.owns(after),
        queues.ring(after, cluster) == queues.ring(before, cluster),
{
    let words = queues.words();
    assert forall|c: int| 0 <= c <= queues.num_queues implies #[trigger] ring_start(
        after.headers@,
        words,
        c,
    ) == ring_start(before.headers@, words, c) by {
        lemma_ring_start_same(after.headers@, before.headers@, words, c);
    }
    assert forall|c: int| 0 <= c < queues.num_queues implies (#[trigger] after.headers@[c]).wf() by {
        assert(before.headers@[c].wf());
    }
    assert forall|c: int, k: int|
        0 <= c < queues.num_queues && 0 <= k < after.headers@[c].spec_len() implies after.data@[
    #[trigger] after.slot(words, c, k) + 2] <= queues.dimensions() by {
        assert(before.data@[before.slot(words, c, k) + 2] <= queues.dimensions());
    }
    assert(queues.ring(after, cluster) =~= queues.ring(before, cluster)) by {
        assert forall|k: int|
            0 <= k < before.headers@[cluster].spec_len() implies #[trigger] queues.ring(
            after,
            cluster,
        )[k] == queues.ring(before, cluster)[k] by {
            assert(after.slot(words, cluster, k) == before.slot(words, cluster, k));
        }
    }
}

/// The parts of the shared memory follow one another: every header ends before the condition
/// variables start, and every condition variable before the entries do.
pub proof fn law_shared_memory_parts_in_order(queues: ClusterQueues, cv_size: int, cluster: int)
    requires
        0 <= cluster < queues.num_queues,
        0 <= cv_size,
    ensures
        QUEUES_SIZE + cluster * QUEUE_HEADER_SIZE + QUEUE_HEADER_SIZE <= queues.cv_offset(),
        queues.cv_offset() + cluster * cv_size + cv_size <= queues.data_offset(cv_size),
{
    let n = queues.num_queues as int;
    assert(cluster * cv_size + cv_size <= n * cv_size) by (nonlinear_arith)
        requires
            cluster < n,
            0 <= cv_size,
    ;
}

/// The headers lie behind the queues' own record, the condition variables behind the headers,
/// and the entries behind those.
pub proof fn law_parts_lie_side_by_side(queues: ClusterQueues, cv_size: int)
    ensures
        queues.cv_offset() == 24 + 40 * queues.num_queues,
        queues.data_offset(cv_size) == 24 + queues.num_queues * (40 + cv_size),
{
    let n = queues.num_queues as int;
    assert(n * (40 + cv_size) == n * 40 + n * cv_size) by (nonlinear_arith);
}

/// The sizes of single queues, added up over their capacities.
pub open spec fn estimated_bytes(capacities: Seq<usize>, num_dimensions: int, cv_size: int) -> int
    decreases capacities.len(),
{
    if capacities.len() == 0 {
        0
    } else {
        estimated_bytes(capacities.drop_last(), num_dimensions, cv_size) + queues_bytes(
            1,
            capacities.last() as int,
            num_dimensions,
            cv_size,
        )
    }
}

/// The estimate for some queues is the sum of the estimates for each of them, in any order.
pub proof fn law_estimates_add_up(
    a: Seq<usize>,
    b: Seq<usize>,
    capacity: usize,
    num_dimensions: int,
    cv_size: int,
)
    ensures
        estimated_bytes(a + b, num_dimensions, cv_size) == estimated_bytes(
            a,
            num_dimensions,
            cv_size,
        ) + estimated_bytes(b, num_dimensions, cv_size),
        estimated_bytes(seq![capacity], num_dimensions, cv_size) == 64 + cv_size + capacity * (12
            + 4 * num_dimensions),
    decreases b.len(),
{
    assert(seq![capacity].drop_last() =~= Seq::empty());
    law_sizes_in_bytes(1, capacity as int, num_dimensions, cv_size);
    assert(estimated_bytes(seq![capacity].drop_last(), num_dimensions, cv_size) == 0);
    assert(1 * (40 + cv_size) == 40 + cv_size && 1 * capacity == capacity);
    if b.len() > 0 {
        law_estimates_add_up(a, b.drop_last(), capacity, num_dimensions, cv_size);
        assert((a + b).drop_last() =~= a + b.drop_last());
    } else {
        assert(a + b =~= a);
    }
}

/// How much memory queues with capacities of their own need, estimated queue by queue.
pub fn estimate_queues_size(capacities: &[usize], num_dimensions: usize, cv_size: usize) -> (r:
    usize)
    requires
        entry_bytes(num_dimensions as int) <= usize::MAX,
        estimated_bytes(capacities@, num_dimensions as int, cv_size as int) <= usize::MAX,
    ensures
        r == estimated_bytes(capacities@, num_dimensions as int, cv_size as int),
{
    let mut r: usize = 0;
    for i in 0..capacities.len()
        invariant
            entry_bytes(num_dimensions as int) <= usize::MAX,
            estimated_bytes(capacities@, num_dimensions as int, cv_size as int) <= usize::MAX,
            r == estimated_bytes(
                capacities@.take(i as int),
                num_dimensions as int,
                cv_size as int,
            ),
    {
        proof {
            let c = capacities@;
            lemma_estimate_grows(c, num_dimensions as int, cv_size as int, i + 1);
            lemma_estimate_grows(c, num_dimensions as int, cv_size as int, i as int);
            assert(c.take(i + 1).drop_last() =~= c.take(i as int));
            lemma_single_queue(c[i as int] as int, num_dimensions as int, cv_size as int);
        }
        r = r + ClusterQueues::calculate_size(1, capacities[i], num_dimensions, cv_size);
    }
    assert(capacities@.take(capacities@.len() as int) =~= capacities@);
    r
}

proof fn lemma_single_queue(capacity: int, num_dimensions: int, cv_size: int)
    requires
        0 <= capacity,
        0 <= num_dimensions,
        0 <= cv_size,
    ensures
        queues_bytes(1, capacity, num_dimensions, cv_size) == QUEUES_SIZE + QUEUE_HEADER_SIZE
            + cv_size + capacity * entry_bytes(num_dimensions),
        capacity * entry_bytes(num_dimensions) >= 0,
        1 * capacity == capacity,
{
    let e = entry_bytes(num_dimensions);
    assert(1 * capacity * e == capacity * e && capacity * e >= 0) by (nonlinear_arith)
        requires
            0 <= capacity,
            0 <= e,
    ;
}

proof fn lemma_estimate_grows(
    capacities: Seq<usize>,
    num_dimensions: int,
    cv_size: int,
    i: int,
)
    requires
        0 <= i <= capacities.len(),
        0 <= num_dimensions,
        0 <= cv_size,
    ensures
        0 <= estimated_bytes(capacities.take(i), num_dimensions, cv_size) <= estimated_bytes(
            capacities,
            num_dimensions,
            cv_size,
        ),
    decreases capacities.len() - i, i,
{
    if i < capacities.len() {
        lemma_estimate_grows(capacities, num_dimensions, cv_size, i + 1);
        assert(capacities.take(i + 1).drop_last() =~= capacities.take(i));
        lemma_single_queue(capacities[i] as int, num_dimensions, cv_size);
    } else {
        assert(capacities.take(i) =~= capacities);
    }
    lemma_estimate_non_negative(capacities.take(i), num_dimensions, cv_size);
}

proof fn lemma_estimate_non_negative(capacities: Seq<usize>, num_dimensions: int, cv_size: int)
    requires
        0 <= num_dimensions,
        0 <= cv_size,
    ensures
        0 <= estimated_bytes(capacities, num_dimensions, cv_size),
    decreases capacities.len(),
{
    if capacities.len() > 0 {
        lemma_estimate_non_negative(capacities.drop_last(), num_dimensions, cv_size);
        lemma_single_queue(capacities.last() as int, num_dimensions, cv_size);
    }
}

/// The memory that is estimated queue by queue has room for all queues as they are laid out.
pub proof fn law_estimate_covers_layout(
    queues: ClusterQueues,
    headers: Seq<ClusterQueueHeader>,
    capacities: Seq<usize>,
    num_dimensions: int,
    cv_size: int,
)
    requires
        queues.num_queues == headers.len() == capacities.len(),
        headers.len() > 0,
        queues.entry_size == entry_bytes(num_dimensions),
        forall|c: int|
            0 <= c < headers.len() ==> (#[trigger] headers[c]).capacity == capacities[c],
        0 <= num_dimensions,
        0 <= cv_size,
    ensures
        queues.data_offset(cv_size) + ring_start(
            headers,
            queues.entry_size as int,
            headers.len() as int,
        ) <= estimated_bytes(capacities, num_dimensions, cv_size),
{
    lemma_estimate_by_parts(
        queues.entry_size as int,
        headers,
        capacities,
        num_dimensions,
        cv_size,
        headers.len() as int,
    );
    assert(capacities.take(headers.len() as int) =~= capacities);
}

proof fn lemma_estimate_by_parts(
    size: int,
    headers: Seq<ClusterQueueHeader>,
    capacities: Seq<usize>,
    num_dimensions: int,
    cv_size: int,
    n: int,
)
    requires
        headers.len() == capacities.len(),
        0 <= n <= headers.len(),
        size == entry_bytes(num_dimensions),
        forall|c: int|
            0 <= c < headers.len() ==> (#[trigger] headers[c]).capacity == capacities[c],
        0 <= num_dimensions,
        0 <= cv_size,
    ensures
        estimated_bytes(capacities.take(n), num_dimensions, cv_size) == n * (QUEUES_SIZE
            + QUEUE_HEADER_SIZE) + n * cv_size + ring_start(headers, size, n),
    decreases n,
{
    if n > 0 {
        lemma_estimate_by_parts(size, headers, capacities, num_dimensions, cv_size, n - 1);
        assert(capacities.take(n).drop_last() =~= capacities.take(n - 1));
        lemma_single_queue(capacities[n - 1] as int, num_dimensions, cv_size);
        assert(headers[n - 1].capacity == capacities[n - 1]);
        assert(n * cv_size == (n - 1) * cv_size + cv_size) by (nonlinear_arith);
    } else {
        assert(0 * cv_size == 0);
    }
}

/// A consumer that moves the head by one place changes it, and the ring then holds one entry
/// less: another consumer that saw the old head does not find it right after that. This is said
/// of one step. After a full turn of the ring the head is at the same place again, so that the
/// place alone, unlike a count, does not tell whether the head has been moved since.
pub proof fn law_one_consumer_moves_the_head(header: ClusterQueueHeader)
    requires
        header.wf(),
        header.spec_len() > 0,
    ensures
        ({
            let next = next_place(header.head as int, header.capacity as int) as usize;
            let moved = ClusterQueueHeader { head: next, ..header };
            &&& moved.head != header.head
            &&& moved.wf()
            &&& moved.spec_len() == header.spec_len() - 1
            &&& forall|k: int|
                0 <= k < moved.spec_len() ==> #[trigger] moved.place(k) == header.place(k + 1)
        }),
{
}

/// The place into which a producer writes is none from which a consumer reads.
pub proof fn law_producer_writes_a_free_place(header: ClusterQueueHeader, k: int)
    requires
        header.wf(),
        0 <= k < header.spec_len(),
    ensures
        header.place(k) != header.tail,
        0 <= header.place(k) < header.capacity,
{
}

/// What is done to the queue of a cluster.
pub enum QueueOp {
    /// A producer pushes entries.
    Push { entries: Seq<Entry> },
    /// Some consumer takes up to `max` entries.
    Pop { max: nat },
}

/// A queue after some operations, with all that was pushed to it and taken from it so far, in
/// that order.
#[verifier::ext_equal]
pub struct QueueHistory {
    pub ring: Seq<Entry>,
    pub pushed: Seq<Entry>,
    pub popped: Seq<Entry>,
}

pub open spec fn queue_history(ops: Seq<QueueOp>) -> QueueHistory
    decreases ops.len(),
{
    if ops.len() == 0 {
        QueueHistory { ring: Seq::empty(), pushed: Seq::empty(), popped: Seq::empty() }
    } else {
        let before = queue_history(ops.drop_last());
        match ops.last() {
            QueueOp::Push { entries } => QueueHistory {
                ring: before.ring + entries,
                pushed: before.pushed + entries,
                popped: before.popped,
            },
            QueueOp::Pop { max } => QueueHistory {
                ring: left_over(before.ring, max as int),
                pushed: before.pushed,
                popped: before.popped + taken(before.ring, max as int),
            },
        }
    }
}

/// Whoever pushes and takes, and in whatever order: every entry that was pushed and points at
/// a row has been taken once or is still in the queue, and entries are taken in the order in
/// which they were pushed. When the queue is empty, all of them have been taken.
pub proof fn law_every_entry_is_taken_once(ops: Seq<QueueOp>)
    ensures
        ({
            let history = queue_history(ops);
            &&& history.popped + valid_part(history.ring) == valid_part(history.pushed)
            &&& history.ring.len() == 0 ==> history.popped == valid_part(history.pushed)
        }),
    decreases ops.len(),
{
    let history = queue_history(ops);
    if ops.len() > 0 {
        law_every_entry_is_taken_once(ops.drop_last());
        let before = queue_history(ops.drop_last());
        match ops.last() {
            QueueOp::Push { entries } => {
                lemma_valid_part_joins(before.ring, entries);
                lemma_valid_part_joins(before.pushed, entries);
                assert(before.popped + (valid_part(before.ring) + valid_part(entries)) =~= (
                before.popped + valid_part(before.ring)) + valid_part(entries));
            },
            QueueOp::Pop { max } => {
                let (got, rest) = (
                    taken(before.ring, max as int),
                    valid_part(left_over(before.ring, max as int)),
                );
                law_batches_conserve_entries(before.ring, max as int);
                assert(before.popped + (got + rest) =~= (before.popped + got) + rest);
            },
        }
    } else {
        assert(history.popped + valid_part(history.ring) =~= valid_part(history.pushed));
    }
    if history.ring.len() == 0 {
        assert(history.popped + valid_part(history.ring) =~= history.popped);
    }
}

proof fn lemma_valid_part_joins(a: Seq<Entry>, b: Seq<Entry>)
    ensures
        valid_part(a + b) == valid_part(a) + valid_part(b),
    decreases a.len(),
{
    if a.len() == 0 {
        assert(a + b =~= b);
        assert(valid_part(a) + valid_part(b) =~= valid_part(b));
    } else {
        lemma_valid_part_joins(a.drop_first(), b);
        assert((a + b).drop_first() =~= a.drop_first() + b);
        assert((a + b)[0] == a[0]);
        if a[0].0.spec_is_valid() {
            assert(seq![a[0]] + (valid_part(a.drop_first()) + valid_part(b)) =~= (seq![a[0]]
                + valid_part(a.drop_first())) + valid_part(b));
        }
    }
}

} // verus!
