//! The centroids in shared memory: their number, then each centroid with its length before
//! it. Memory is seen as words of four bytes. Lengths take eight bytes, the lower word
//! first, and lie at a multiple of eight bytes: behind an odd number of components a length
//! starts one word early, on the last component before it.
use crate::queue::COMPONENT_SIZE;
use vstd::prelude::*;

verus! {

/// The size in bytes of a length.
pub const LENGTH_SIZE: usize = 8;

/// The size of a length in words.
pub const LENGTH_WORDS: usize = 2;

/// Memory after a length was written at a word.
pub open spec fn with_length(memory: Seq<u32>, at: int, length: int) -> Seq<u32> {
    memory.update(at, (length % 0x1_0000_0000) as u32).update(
        at + 1,
        (length / 0x1_0000_0000) as u32,
    )
}

/// The length at a word.
pub open spec fn length_at(memory: Seq<u32>, at: int) -> int {
    memory[at] + memory[at + 1] * 0x1_0000_0000
}

/// Memory after words were written from a word on.
pub open spec fn with_words(memory: Seq<u32>, at: int, words: Seq<u32>) -> Seq<u32> {
    Seq::new(
        memory.len(),
        |i: int|
            if at <= i < at + words.len() {
                words[i - at]
            } else {
                memory[i]
            },
    )
}

/// The word at which the length of something that starts at a word is kept.
pub open spec fn aligned(at: int) -> int {
    at / 2 * 2
}

/// Where the `k`th centroid starts.
pub open spec fn centroid_start(num_dimensions: int, k: int) -> int {
    LENGTH_WORDS + k * (LENGTH_WORDS + num_dimensions)
}

/// Memory after the number of centroids and the first `k` of them were written.
pub open spec fn written(
    memory: Seq<u32>,
    centroids: Seq<Vec<u32>>,
    num_dimensions: int,
    k: int,
) -> Seq<u32>
    decreases k,
{
    if k <= 0 {
        with_length(memory, 0, centroids.len() as int)
    } else {
        let before = written(memory, centroids, num_dimensions, k - 1);
        let at = centroid_start(num_dimensions, k - 1);
        with_words(
            with_length(before, aligned(at), num_dimensions),
            at + LENGTH_WORDS,
            centroids[k - 1]@.take(num_dimensions),
        )
    }
}

/// From a word on memory holds `count` centroids.
pub open spec fn holds(memory: Seq<u32>, at: int, count: int) -> bool
    decreases count,
{
    count <= 0 || {
        let next = at + LENGTH_WORDS + length_at(memory, aligned(at));
        &&& 0 <= at
        &&& at + LENGTH_WORDS <= memory.len()
        &&& length_at(memory, aligned(at)) <= usize::MAX
        &&& next <= memory.len()
        &&& holds(memory, next, count - 1)
    }
}

/// The centroids that memory holds from a word on.
pub open spec fn read(memory: Seq<u32>, at: int, count: int) -> Seq<Seq<u32>>
    decreases count,
{
    if count <= 0 {
        Seq::empty()
    } else {
        let next = at + LENGTH_WORDS + length_at(memory, aligned(at));
        seq![memory.subrange(at + LENGTH_WORDS, next)] + read(memory, next, count - 1)
    }
}

/// The size in bytes of a number of centroids in shared memory.
pub open spec fn centroids_bytes(num_clusters: int, num_dimensions: int) -> int {
    LENGTH_SIZE + num_clusters * (LENGTH_SIZE + num_dimensions * COMPONENT_SIZE)
}

/// The size in bytes of a number of centroids in shared memory.
pub fn centroids_size(num_clusters: usize, num_dimensions: usize) -> (r: usize)
    requires
        num_dimensions * COMPONENT_SIZE + LENGTH_SIZE <= usize::MAX,
        centroids_bytes(num_clusters as int, num_dimensions as int) <= usize::MAX,
    ensures
        r == centroids_bytes(num_clusters as int, num_dimensions as int),
{
    let each: usize = LENGTH_SIZE + num_dimensions * COMPONENT_SIZE;
    proof {
        let (n, e) = (num_clusters as int, each as int);
        assert(n * e >= 0) by (nonlinear_arith)
            requires
                n >= 0,
                e >= 0,
        ;
    }
    LENGTH_SIZE + num_clusters * each
}

fn put_length(memory: &mut Vec<u32>, at: usize, length: usize)
    requires
        at + 1 < old(memory)@.len(),
    ensures
        final(memory)@ == with_length(old(memory)@, at as int, length as int),
{
    assert(memory.len() <= usize::MAX);
    memory[at] = (length as u64 % 0x1_0000_0000) as u32;
    memory[at + 1] = (length as u64 / 0x1_0000_0000) as u32;
}

fn put_words(memory: &mut Vec<u32>, at: usize, words: &Vec<u32>, count: usize)
    requires
        count <= words@.len(),
        at + count <= old(memory)@.len(),
    ensures
        final(memory)@ == with_words(old(memory)@, at as int, words@.take(count as int)),
{
    let ghost before = memory@;
    assert(memory.len() <= usize::MAX);
    for i in 0..count
        invariant
            count <= words@.len(),
            at + count <= memory@.len() <= usize::MAX,
            memory@.len() == before.len(),
            forall|k: int|
                0 <= k < before.len() ==> #[trigger] memory@[k] == if at <= k < at + i {
                    words@[k - at]
                } else {
                    before[k]
                },
    {
        memory[at + i] = words[i];
    }
    assert(memory@ =~= with_words(before, at as int, words@.take(count as int)));
}

proof fn lemma_start_ordered(num_dimensions: int, a: int, b: int)
    requires
        0 <= a <= b,
        0 <= num_dimensions,
    ensures
        LENGTH_WORDS <= centroid_start(num_dimensions, a) <= centroid_start(num_dimensions, b),
        centroid_start(num_dimensions, a + 1) == centroid_start(num_dimensions, a) + LENGTH_WORDS
            + num_dimensions,
{
    let w = LENGTH_WORDS + num_dimensions;
    assert(0 <= a * w <= b * w && (a + 1) * w == a * w + w) by (nonlinear_arith)
        requires
            0 <= a <= b,
            0 <= w,
    ;
}

proof fn lemma_written_len(memory: Seq<u32>, centroids: Seq<Vec<u32>>, num_dimensions: int, k: int)
    requires
        0 <= num_dimensions,
        0 <= k,
        centroid_start(num_dimensions, k) <= memory.len(),
    ensures
        written(memory, centroids, num_dimensions, k).len() == memory.len(),
    decreases k,
{
    lemma_start_ordered(num_dimensions, 0, k);
    if k > 0 {
        lemma_start_ordered(num_dimensions, k - 1, k);
        lemma_written_len(memory, centroids, num_dimensions, k - 1);
    }
}

/// Writes the first `num_dimensions` components of each centroid, with their number.
pub fn write_centroids_to_shmem(
    memory: &mut Vec<u32>,
    centroids: &[Vec<u32>],
    num_dimensions: usize,
)
    requires
        centroid_start(num_dimensions as int, centroids@.len() as int) <= old(memory)@.len(),
        forall|i: int|
            0 <= i < centroids@.len() ==> num_dimensions <= (#[trigger] centroids@[i])@.len(),
    ensures
        final(memory)@ == written(
            old(memory)@,
            centroids@,
            num_dimensions as int,
            centroids@.len() as int,
        ),
{
    let ghost start = memory@;
    let ghost d = num_dimensions as int;
    assert(memory.len() <= usize::MAX);
    proof {
        lemma_start_ordered(d, 0, centroids@.len() as int);
    }
    put_length(memory, 0, centroids.len());
    let mut offset: usize = LENGTH_WORDS;
    for i in 0..centroids.len()
        invariant
            d == num_dimensions,
            start.len() <= usize::MAX,
            centroid_start(d, centroids@.len() as int) <= start.len(),
            forall|i: int|
                0 <= i < centroids@.len() ==> num_dimensions <= (#[trigger] centroids@[i])@.len(),
            offset == centroid_start(d, i as int),
            memory@ == written(start, centroids@, d, i as int),
    {
        proof {
            lemma_start_ordered(d, i as int, centroids@.len() as int);
            lemma_written_len(start, centroids@, d, i as int);
            lemma_start_ordered(d, i + 1, centroids@.len() as int);
            assert(num_dimensions <= centroids@[i as int]@.len());
        }
        put_length(memory, offset / 2 * 2, num_dimensions);
        offset = offset + LENGTH_WORDS;
        put_words(memory, offset, &centroids[i], num_dimensions);
        offset = offset + num_dimensions;
    }
}

/// The length at a word, which may be too large for the machine.
fn long_length(memory: &[u32], at: usize) -> (r: u64)
    requires
        at + 1 < memory@.len(),
    ensures
        r == length_at(memory@, at as int),
{
    memory[at] as u64 + memory[at + 1] as u64 * 0x1_0000_0000
}

fn get_length(memory: &[u32], at: usize) -> (r: usize)
    requires
        at + 1 < memory@.len(),
        length_at(memory@, at as int) <= usize::MAX,
    ensures
        r == length_at(memory@, at as int),
{
    long_length(memory, at) as usize
}

/// The centroids without their storage.
pub open spec fn vectors(v: Seq<Vec<u32>>) -> Seq<Seq<u32>> {
    Seq::new(v.len(), |i: int| v[i]@)
}

/// Memory holds centroids that can be read.
pub open spec fn is_readable(memory: Seq<u32>) -> bool {
    &&& LENGTH_WORDS <= memory.len()
    &&& length_at(memory, 0) <= usize::MAX
    &&& holds(memory, LENGTH_WORDS as int, length_at(memory, 0))
}

/// Whether memory holds centroids that can be read.
pub fn holds_centroids(memory: &[u32]) -> (r: bool)
    ensures
        r == is_readable(memory@),
{
    assert(memory.len() <= usize::MAX);
    if memory.len() < LENGTH_WORDS {
        return false;
    }
    let count: u64 = long_length(memory, 0);
    if count > usize::MAX as u64 {
        return false;
    }
    let mut left: u64 = count;
    let mut at: usize = LENGTH_WORDS;
    while left > 0
        invariant
            memory@.len() <= usize::MAX,
            at <= memory@.len(),
            count == length_at(memory@, 0),
            holds(memory@, at as int, left as int) == holds(
                memory@,
                LENGTH_WORDS as int,
                count as int,
            ),
        decreases left,
    {
        if memory.len() - at < LENGTH_WORDS {
            return false;
        }
        let length: u64 = long_length(memory, at / 2 * 2);
        if length > (memory.len() - at - LENGTH_WORDS) as u64 {
            return false;
        }
        at = at + LENGTH_WORDS + length as usize;
        left = left - 1;
    }
    true
}

/// Reads all centroids.
pub fn read_centroids_from_shmem(memory: &[u32]) -> (r: Vec<Vec<u32>>)
    requires
        is_readable(memory@),
    ensures
        vectors(r@) == read(memory@, LENGTH_WORDS as int, length_at(memory@, 0)),
        r@.len() == memory@[0] + memory@[1] * 0x1_0000_0000,
        forall|i: int|
            0 <= i < r@.len() ==> (#[trigger] r@[i])@ == read(
                memory@,
                LENGTH_WORDS as int,
                length_at(memory@, 0),
            )[i],
{
    assert(memory.len() <= usize::MAX);
    let num_clusters: usize = get_length(memory, 0);
    let mut centroids: Vec<Vec<u32>> = Vec::new();
    let mut offset: usize = LENGTH_WORDS;
    let ghost all = read(memory@, LENGTH_WORDS as int, num_clusters as int);
    assert(vectors(centroids@) + all =~= all);
    for i in 0..num_clusters
        invariant
            memory@.len() <= usize::MAX,
            holds(memory@, offset as int, num_clusters - i),
            vectors(centroids@) + read(memory@, offset as int, num_clusters - i) == all,
    {
        let num_dimensions: usize = get_length(memory, offset / 2 * 2);
        let ghost tail = read(
            memory@,
            offset + LENGTH_WORDS + num_dimensions,
            num_clusters - i - 1,
        );
        let ghost own = memory@.subrange(
            offset + LENGTH_WORDS,
            offset + LENGTH_WORDS + num_dimensions,
        );
        offset = offset + LENGTH_WORDS;
        let mut centroid: Vec<u32> = Vec::new();
        for j in 0..num_dimensions
            invariant
                offset + num_dimensions <= memory@.len() <= usize::MAX,
                centroid@ == memory@.subrange(offset as int, offset + j),
        {
            centroid.push(memory[offset + j]);
            assert(centroid@ =~= memory@.subrange(offset as int, offset + j + 1));
        }
        offset = offset + num_dimensions;
        let ghost before = vectors(centroids@);
        centroids.push(centroid);
        assert(vectors(centroids@) =~= before.push(own));
        assert(before.push(own) + tail =~= before + (seq![own] + tail));
    }
    assert(vectors(centroids@) =~= all);
    proof {
        if num_clusters > 0 {
            law_centroids_are_read_one_after_the_other(
                memory@,
                LENGTH_WORDS as int,
                num_clusters as int,
            );
        }
        assert forall|i: int| 0 <= i < centroids@.len() implies (#[trigger] centroids@[i])@
            == all[i] by {
            assert(vectors(centroids@)[i] == centroids@[i]@);
        }
    }
    centroids
}

/// The `j`th of the first `k` centroids that were written is where it belongs.
proof fn lemma_written_stays(
    memory: Seq<u32>,
    centroids: Seq<Vec<u32>>,
    num_dimensions: int,
    k: int,
)
    requires
        0 <= k <= centroids.len(),
        0 <= num_dimensions <= usize::MAX,
        centroids.len() <= usize::MAX,
        centroid_start(num_dimensions, centroids.len() as int) <= memory.len(),
        num_dimensions % 2 == 0 || centroids.len() <= 1,
        forall|i: int|
            0 <= i < centroids.len() ==> num_dimensions <= (#[trigger] centroids[i])@.len(),
    ensures
        ({
            let w = written(memory, centroids, num_dimensions, k);
            &&& length_at(w, 0) == centroids.len()
            &&& forall|j: int|
                0 <= j < k ==> ({
                    let at = #[trigger] centroid_start(num_dimensions, j);
                    &&& aligned(at) == at
                    &&& length_at(w, at) == num_dimensions
                    &&& w.subrange(at + LENGTH_WORDS, at + LENGTH_WORDS + num_dimensions)
                        == centroids[j]@.take(num_dimensions)
                })
        }),
    decreases k,
{
    let d = num_dimensions;
    lemma_start_ordered(d, k, centroids.len() as int);
    lemma_written_len(memory, centroids, d, k);
    lemma_start_ordered(d, 0, centroids.len() as int);
    if k > 0 {
        lemma_written_stays(memory, centroids, d, k - 1);
        lemma_start_ordered(d, k - 1, centroids.len() as int);
        lemma_written_len(memory, centroids, d, k - 1);
        let before = written(memory, centroids, d, k - 1);
        let w = written(memory, centroids, d, k);
        let last = centroid_start(d, k - 1);
        lemma_start_ordered(d, k, centroids.len() as int);
        assert(num_dimensions <= centroids[k - 1]@.len());
        assert(last % 2 == 0) by {
            if centroids.len() > 1 {
                let half = d / 2;
                assert((k - 1) * (2 + d) == 2 * ((k - 1) * (1 + half))) by (nonlinear_arith)
                    requires
                        d == 2 * half,
                ;
            } else {
                assert((k - 1) * (2 + d) == 0) by (nonlinear_arith)
                    requires
                        k == 1,
                ;
            }
        }
        assert(forall|i: int| 0 <= i < last ==> w[i] == before[i]);
        assert forall|j: int| 0 <= j < k implies ({
            let at = #[trigger] centroid_start(d, j);
            &&& aligned(at) == at
            &&& length_at(w, at) == d
            &&& w.subrange(at + LENGTH_WORDS, at + LENGTH_WORDS + d) == centroids[j]@.take(d)
        }) by {
            let at = centroid_start(d, j);
            if j < k - 1 {
                lemma_start_ordered(d, j, k - 1);
                lemma_start_ordered(d, j + 1, k - 1);
                assert(w.subrange(at + LENGTH_WORDS, at + LENGTH_WORDS + d) =~= before.subrange(
                    at + LENGTH_WORDS,
                    at + LENGTH_WORDS + d,
                ));
            } else {
                assert(w.subrange(at + LENGTH_WORDS, at + LENGTH_WORDS + d)
                    =~= centroids[j]@.take(d));
            }
        }
    }
}

proof fn lemma_read_written(
    w: Seq<u32>,
    centroids: Seq<Vec<u32>>,
    num_dimensions: int,
    from: int,
)
    requires
        0 <= from <= centroids.len(),
        0 <= num_dimensions <= usize::MAX,
        centroid_start(num_dimensions, centroids.len() as int) <= w.len(),
        forall|j: int|
            0 <= j < centroids.len() ==> ({
                let at = #[trigger] centroid_start(num_dimensions, j);
                &&& aligned(at) == at
                &&& length_at(w, at) == num_dimensions
                &&& w.subrange(at + LENGTH_WORDS, at + LENGTH_WORDS + num_dimensions)
                    == centroids[j]@.take(num_dimensions)
            }),
    ensures
        holds(w, centroid_start(num_dimensions, from), centroids.len() - from),
        read(w, centroid_start(num_dimensions, from), centroids.len() - from) == Seq::new(
            (centroids.len() - from) as nat,
            |i: int| centroids[from + i]@.take(num_dimensions),
        ),
    decreases centroids.len() - from,
{
    let d = num_dimensions;
    if from < centroids.len() {
        lemma_read_written(w, centroids, d, from + 1);
        lemma_start_ordered(d, from, centroids.len() as int);
        lemma_start_ordered(d, from + 1, centroids.len() as int);
    }
    assert(read(w, centroid_start(d, from), centroids.len() - from) =~= Seq::new(
        (centroids.len() - from) as nat,
        |i: int| centroids[from + i]@.take(d),
    ));
}

/// What was written is read back, unless an odd number of components makes a length fall on
/// a component: each worker sees the centroids of the process that wrote them.
pub proof fn law_centroids_round_trip(
    memory: Seq<u32>,
    centroids: Seq<Vec<u32>>,
    num_dimensions: int,
)
    requires
        0 <= num_dimensions <= usize::MAX,
        centroids.len() <= usize::MAX,
        centroid_start(num_dimensions, centroids.len() as int) <= memory.len(),
        num_dimensions % 2 == 0 || centroids.len() <= 1,
        forall|i: int|
            0 <= i < centroids.len() ==> num_dimensions <= (#[trigger] centroids[i])@.len(),
    ensures
        ({
            let w = written(memory, centroids, num_dimensions, centroids.len() as int);
            &&& length_at(w, 0) == centroids.len()
            &&& holds(w, LENGTH_WORDS as int, centroids.len() as int)
            &&& read(w, LENGTH_WORDS as int, centroids.len() as int) == Seq::new(
                centroids.len(),
                |i: int| centroids[i]@.take(num_dimensions),
            )
        }),
{
    let n = centroids.len() as int;
    let w = written(memory, centroids, num_dimensions, n);
    lemma_written_len(memory, centroids, num_dimensions, n);
    lemma_written_stays(memory, centroids, num_dimensions, n);
    lemma_read_written(w, centroids, num_dimensions, 0);
    assert(centroid_start(num_dimensions, 0) == LENGTH_WORDS) by {
        let x = LENGTH_WORDS + num_dimensions;
        assert(0 * x == 0);
    }
    assert(Seq::new((n - 0) as nat, |i: int| centroids[0 + i]@.take(num_dimensions)) =~= Seq::new(
        centroids.len(),
        |i: int| centroids[i]@.take(num_dimensions),
    ));
}

/// Whatever the number of components: the number of centroids stands first, the length of each
/// centroid at the word that is aligned for it, and each component at its place behind that,
/// but for the last component of a centroid on which the length of the next one falls.
proof fn lemma_written_places(
    memory: Seq<u32>,
    centroids: Seq<Vec<u32>>,
    num_dimensions: int,
    k: int,
    j: int,
    i: int,
)
    requires
        0 <= j < k <= centroids.len(),
        0 <= i < num_dimensions <= usize::MAX,
        centroids.len() <= usize::MAX,
        centroid_start(num_dimensions, centroids.len() as int) <= memory.len(),
        forall|i: int|
            0 <= i < centroids.len() ==> num_dimensions <= (#[trigger] centroids[i])@.len(),
    ensures
        ({
            let w = written(memory, centroids, num_dimensions, k);
            let at = centroid_start(num_dimensions, j);
            let covered = i == num_dimensions - 1 && j + 1 < k && (at + 2 + num_dimensions) % 2
                == 1;
            &&& w.len() == memory.len()
            &&& length_at(w, 0) == centroids.len()
            &&& length_at(w, aligned(at)) == num_dimensions
            &&& !covered ==> w[at + 2 + i] == centroids[j]@[i]
            &&& covered ==> w[at + 2 + i] == num_dimensions % 0x1_0000_0000
        }),
    decreases k,
{
    let d = num_dimensions;
    let n = centroids.len() as int;
    lemma_start_ordered(d, k, n);
    lemma_start_ordered(d, k - 1, n);
    lemma_start_ordered(d, 0, n);
    lemma_start_ordered(d, j, n);
    lemma_written_len(memory, centroids, d, k);
    lemma_written_len(memory, centroids, d, k - 1);
    let before = written(memory, centroids, d, k - 1);
    let w = written(memory, centroids, d, k);
    let last = centroid_start(d, k - 1);
    assert(d <= centroids[k - 1]@.len());
    let at = centroid_start(d, j);
    assert(centroid_start(d, 0) == 2) by {
        let x = 2 + d;
        assert(0 * x == 0);
    }
    assert(aligned(last) >= 2);
    assert(forall|m: int| 0 <= m < aligned(last) ==> w[m] == before[m]);
    if j < k - 1 {
        lemma_written_places(memory, centroids, d, k - 1, j, i);
        lemma_start_ordered(d, j + 1, k - 1);
        assert(at + 2 + d <= last);
        if j + 1 < k - 1 {
            lemma_start_ordered(d, j + 2, k - 1);
            lemma_start_ordered(d, j + 1, j + 2);
            assert(at + 2 + d + 2 <= last);
            assert(w[at + 2 + i] == before[at + 2 + i]);
        } else {
            assert(last == at + 2 + d);
        }
    } else if k == 1 {
        assert(length_at(before, 0) == n);
    } else {
        lemma_written_places(memory, centroids, d, k - 1, 0, 0);
    }
}

/// Whatever the number of components: each centroid that was written stands behind its length,
/// but for its last component where the length of the next centroid, which must lie at a
/// multiple of eight bytes, falls on it.
pub proof fn law_written_centroids_lie_in_place(
    memory: Seq<u32>,
    centroids: Seq<Vec<u32>>,
    num_dimensions: int,
    j: int,
    i: int,
)
    requires
        0 <= j < centroids.len() <= usize::MAX,
        0 <= i < num_dimensions <= usize::MAX,
        2 + centroids.len() * (2 + num_dimensions) <= memory.len(),
        forall|i: int|
            0 <= i < centroids.len() ==> num_dimensions <= (#[trigger] centroids[i])@.len(),
    ensures
        ({
            let w = written(memory, centroids, num_dimensions, centroids.len() as int);
            let at = 2 + j * (2 + num_dimensions);
            let next = at + 2 + num_dimensions;
            let low = if at % 2 == 0 {
                at
            } else {
                at - 1
            };
            let covered = i == num_dimensions - 1 && j + 1 < centroids.len() && next % 2 == 1;
            &&& w[0] + w[1] * 0x1_0000_0000 == centroids.len()
            &&& w[low] + w[low + 1] * 0x1_0000_0000 == num_dimensions
            &&& !covered ==> w[at + 2 + i] == centroids[j]@[i]
            &&& covered ==> w[at + 2 + i] == num_dimensions % 0x1_0000_0000
        }),
{
    lemma_written_places(memory, centroids, num_dimensions, centroids.len() as int, j, i);
}

/// Reading gives as many centroids as are asked for, each with as many components as the length
/// at its aligned word says, one behind the other.
pub proof fn law_centroids_are_read_one_after_the_other(memory: Seq<u32>, at: int, count: int)
    requires
        0 < count,
        holds(memory, at, count),
    ensures
        ({
            let low = if at % 2 == 0 {
                at
            } else {
                at - 1
            };
            let length = memory[low] + memory[low + 1] * 0x1_0000_0000;
            let all = read(memory, at, count);
            &&& all.len() == count
            &&& all[0] == memory.subrange(at + 2, at + 2 + length)
            &&& all.drop_first() == read(memory, at + 2 + length, count - 1)
        }),
    decreases count,
{
    let next = at + 2 + length_at(memory, aligned(at));
    let rest = read(memory, next, count - 1);
    if count > 1 {
        law_centroids_are_read_one_after_the_other(memory, next, count - 1);
    }
    assert(read(memory, at, count).drop_first() =~= rest);
}

/// Centroids can be read exactly if there is room for their number, and for each of them, one
/// behind the other, room for its length and as many components as that says.
pub proof fn law_readable_memory_has_room(memory: Seq<u32>, at: int, count: int)
    requires
        0 <= at,
        memory.len() <= usize::MAX,
    ensures
        is_readable(memory) <==> memory.len() >= 2 && memory[0] + memory[1] * 0x1_0000_0000
            <= usize::MAX && holds(memory, 2, memory[0] + memory[1] * 0x1_0000_0000),
        count <= 0 ==> holds(memory, at, count),
        count > 0 ==> ({
            let low = if at % 2 == 0 {
                at
            } else {
                at - 1
            };
            let length = memory[low] + memory[low + 1] * 0x1_0000_0000;
            holds(memory, at, count) <==> at + 2 + length <= memory.len() && holds(
                memory,
                at + 2 + length,
                count - 1,
            )
        }),
{
}

/// The estimated bytes are those of the words that are written.
pub proof fn law_centroids_size_suffices(num_clusters: int, num_dimensions: int)
    ensures
        centroids_bytes(num_clusters, num_dimensions) == 4 * centroid_start(
            num_dimensions,
            num_clusters,
        ),
{
    let d = num_dimensions;
    assert(num_clusters * (8 + d * 4) == 4 * (num_clusters * (2 + d))) by (nonlinear_arith);
}

} // verus!
