//! Lloyd's refinement of centroids: how the first centroids are chosen, which centroid each
//! sample belongs to, and when refinement ends. Arithmetic on components is left to the caller,
//! who passes its results as bit patterns of single-precision numbers.
use crate::k_means::{copy_of, has_number, is_nearest, k_means_lookup, law_nearest_is_nearest, nearest};
use crate::single::{is_smaller, not_a_number, smaller, INFINITY, ZERO};
use rand::rngs::StdRng;
use rand::Rng;
use vstd::prelude::*;

verus! {

/// The random number generator of the crate `rand` that is seeded by its user.
#[verifier::external_type_specification]
#[verifier::external_body]
pub struct ExStdRng(StdRng);

/// Calls `rand::Rng::gen_range` on the numbers from zero up to, not including, `n`, of which
/// there must be one. It returns one of them.
#[verifier::external_body]
fn random_index(rng: &mut StdRng, n: usize) -> (r: usize)
    requires
        n > 0,
    ensures
        r < n,
{
    rng.gen_range(0..n)
}

/// Calls `rand::seq::index::sample`, which draws `amount` different numbers from zero up to,
/// not including, `length`, in any order. It cannot draw more than there are, nor all of more
/// than fit in 32 bits.
#[verifier::external_body]
fn sample_indices(rng: &mut StdRng, length: usize, amount: usize) -> (r: Vec<usize>)
    requires
        amount <= length,
        length <= u32::MAX || amount < length,
    ensures
        r@.len() == amount,
        r@.no_duplicates(),
        forall|i: int| 0 <= i < amount ==> #[trigger] r@[i] < length,
{
    rand::seq::index::sample(rng, length, amount).into_vec()
}

/// Copies of the samples at given places, in their order.
pub fn centers_at(samples: &[Vec<u32>], indices: &[usize]) -> (r: Vec<Vec<u32>>)
    requires
        forall|i: int| 0 <= i < indices@.len() ==> #[trigger] indices@[i] < samples@.len(),
    ensures
        r@.len() == indices@.len(),
        forall|i: int|
            0 <= i < indices@.len() ==> (#[trigger] r@[i])@ == samples@[indices@[i] as int]@,
{
    let mut r: Vec<Vec<u32>> = Vec::new();
    for i in 0..indices.len()
        invariant
            forall|k: int| 0 <= k < indices@.len() ==> #[trigger] indices@[k] < samples@.len(),
            r@.len() == i,
            forall|k: int|
                0 <= k < i ==> (#[trigger] r@[k])@ == samples@[indices@[k] as int]@,
    {
        r.push(copy_of(&samples[indices[i]]));
    }
    r
}

/// The smaller of the weight of a sample and its distance to a new center.
pub open spec fn lowered_weight(weight: u32, distance: u32) -> u32 {
    if smaller(distance, weight) {
        distance
    } else {
        weight
    }
}

/// Lowers the weight of each sample to its squared distance to a new center, where that is
/// smaller.
pub fn lower_weights(weight: &mut Vec<u32>, distances: &[u32])
    requires
        old(weight)@.len() == distances@.len(),
    ensures
        final(weight)@ == Seq::new(
            distances@.len(),
            |j: int| lowered_weight(old(weight)@[j], distances@[j]),
        ),
{
    let n: usize = weight.len();
    let ghost before = weight@;
    for j in 0..n
        invariant
            n == before.len(),
            weight@.len() == n,
            distances@.len() == n,
            forall|k: int|
                0 <= k < n ==> #[trigger] weight@[k] == if k < j {
                    lowered_weight(before[k], distances@[k])
                } else {
                    before[k]
                },
    {
        if is_smaller(distances[j], weight[j]) {
            weight[j] = distances[j];
        }
    }
    assert(weight@ =~= Seq::new(
        distances@.len(),
        |j: int| lowered_weight(before[j], distances@[j]),
    ));
}

/// After any number of centers a weight is one of the distances or the first weight, and no
/// distance is smaller.
pub proof fn law_weight_is_smallest_distance(weight: u32, distance: u32, earlier: u32)
    requires
        !smaller(earlier, weight),
    ensures
        lowered_weight(weight, distance) == weight || lowered_weight(weight, distance) == distance,
        !smaller(distance, lowered_weight(weight, distance)),
        !smaller(earlier, lowered_weight(weight, distance)),
        !smaller(weight, lowered_weight(weight, distance)),
        !smaller(distance, weight) ==> lowered_weight(weight, distance) == weight,
        smaller(distance, weight) ==> lowered_weight(weight, distance) == distance,
{
}

/// Which sample a random choice falls on. `remaining` holds what is left of the choice after
/// each weight was taken from it: the first place at which that is negative, or the last
/// sample.
pub open spec fn chosen(remaining: Seq<u32>, r: int) -> bool {
    &&& 0 <= r <= remaining.len()
    &&& r < remaining.len() ==> smaller(remaining[r], ZERO)
    &&& forall|j: int| 0 <= j < r ==> !smaller(#[trigger] remaining[j], ZERO)
}

/// The sample on which a random choice falls.
pub fn weighted_index(remaining: &[u32]) -> (r: usize)
    ensures
        chosen(remaining@, r as int),
        r <= remaining@.len(),
        r < remaining@.len() ==> smaller(remaining@[r as int], 0),
        forall|j: int| 0 <= j < r ==> !smaller(#[trigger] remaining@[j], 0),
{
    let mut j: usize = 0;
    while j < remaining.len() && !is_smaller(remaining[j], ZERO)
        invariant
            j <= remaining@.len(),
            forall|k: int| 0 <= k < j ==> !smaller(#[trigger] remaining@[k], ZERO),
        decreases remaining@.len() - j,
    {
        j = j + 1;
    }
    j
}

/// A choice falls on the first sample whose weight takes more than is left of it; on the last
/// one if none does.
pub proof fn law_choice_falls_where_it_is_used_up(remaining: Seq<u32>, r: int, j: int)
    requires
        chosen(remaining, r),
        0 <= j < remaining.len(),
    ensures
        0 <= r <= remaining.len(),
        j < r ==> !smaller(remaining[j], 0),
        j == r ==> smaller(remaining[j], 0),
        smaller(remaining[j], 0) ==> r <= j,
{
}

/// A choice falls on one sample.
pub proof fn law_choice_is_unique(remaining: Seq<u32>, r: int, s: int)
    requires
        chosen(remaining, r),
        chosen(remaining, s),
    ensures
        r == s,
{
    if r < s {
        assert(!smaller(remaining[r], ZERO));
    }
    if s < r {
        assert(!smaller(remaining[s], ZERO));
    }
}

/// The centroid of each sample, given the squared distances of each to all centroids.
pub open spec fn nearest_each(distances: Seq<Vec<u32>>) -> Seq<usize> {
    Seq::new(distances.len(), |i: int| nearest(distances[i]@) as usize)
}

/// Every sample goes to a centroid that no other is nearer than, and among equally near ones to
/// the last, however many samples and centroids there are; a sample without any distance that
/// is a number goes to the first.
pub proof fn law_every_sample_goes_to_its_nearest(distances: Seq<Vec<u32>>, i: int, j: int)
    requires
        0 <= i < distances.len(),
        0 <= j < distances[i]@.len() <= usize::MAX,
    ensures
        nearest_each(distances).len() == distances.len(),
        ({
            let mine = nearest_each(distances)[i] as int;
            &&& 0 <= mine < distances[i]@.len()
            &&& !not_a_number(distances[i]@[j]) ==> {
                &&& !not_a_number(distances[i]@[mine])
                &&& !smaller(distances[i]@[j], distances[i]@[mine])
                &&& mine < j ==> smaller(distances[i]@[mine], distances[i]@[j])
            }
        }),
        (forall|k: int| 0 <= k < distances[i]@.len() ==> not_a_number(#[trigger] distances[i]@[k]))
            ==> nearest_each(distances)[i] == 0,
{
    if has_number(distances[i]@) {
        law_nearest_is_nearest(distances[i]@, j);
        assert(is_nearest(distances[i]@, nearest(distances[i]@)));
    } else {
        assert(not_a_number(distances[i]@[j]));
    }
}

/// The centroid of each sample.
pub fn assign_each(distances: &[Vec<u32>], c: usize) -> (r: Vec<usize>)
    requires
        c > 0,
        forall|i: int| 0 <= i < distances@.len() ==> (#[trigger] distances@[i])@.len() == c,
    ensures
        r@ == nearest_each(distances@),
        forall|i: int| 0 <= i < r@.len() ==> #[trigger] r@[i] < c,
        r@.len() == distances@.len(),
        forall|i: int|
            0 <= i < r@.len() && has_number((#[trigger] distances@[i])@) ==> is_nearest(
                distances@[i]@,
                r@[i] as int,
            ),
        forall|i: int|
            0 <= i < r@.len() && !has_number((#[trigger] distances@[i])@) ==> r@[i] == 0,
{
    let mut r: Vec<usize> = Vec::new();
    for i in 0..distances.len()
        invariant
            c > 0,
            forall|k: int| 0 <= k < distances@.len() ==> (#[trigger] distances@[k])@.len() == c,
            r@.len() == i,
            forall|k: int|
                0 <= k < i ==> #[trigger] r@[k] == nearest(distances@[k]@) && r@[k] < c,
            forall|k: int|
                0 <= k < i && has_number((#[trigger] distances@[k])@) ==> is_nearest(
                    distances@[k]@,
                    r@[k] as int,
                ),
            forall|k: int|
                0 <= k < i && !has_number((#[trigger] distances@[k])@) ==> r@[k] == 0,
    {
        assert(distances@[i as int]@.len() == c);
        r.push(k_means_lookup(distances[i].as_slice()));
    }
    assert(r@ =~= nearest_each(distances@));
    r
}

/// Samples on their way to being grouped around `c` centroids.
pub struct LloydKMeans {
    pub dims: usize,
    pub c: usize,
    pub is_spherical: bool,
    pub centroids: Vec<Vec<u32>>,
    pub assign: Vec<usize>,
    /// The squared distance of each sample to the nearest centroid so far, while centroids
    /// are being chosen one by one.
    pub weight: Vec<u32>,
    pub samples: Vec<Vec<u32>>,
}

/// Vectors are the samples at some places, no two of which are the same.
pub open spec fn picks(
    samples: Seq<Vec<u32>>,
    indices: Seq<usize>,
    vectors: Seq<Vec<u32>>,
) -> bool {
    &&& indices.len() == vectors.len()
    &&& indices.no_duplicates()
    &&& forall|i: int| 0 <= i < indices.len() ==> #[trigger] indices[i] < samples.len()
    &&& forall|i: int|
        0 <= i < vectors.len() ==> (#[trigger] vectors[i])@ == samples[indices[i] as int]@
}

impl LloydKMeans {
    /// Centroids are among the wanted number, and each sample that has a centroid has one of
    /// them.
    pub open spec fn wf(self) -> bool {
        &&& self.c > 0
        &&& self.samples@.len() > 0
        &&& 0 < self.centroids@.len() <= self.c
        &&& self.weight@.len() == self.samples@.len()
        &&& forall|i: int| 0 <= i < self.assign@.len() ==> #[trigger] self.assign@[i] < self.c
    }

    /// Chooses the first centroids. If they are to be spread out, only one is chosen at random,
    /// and `add_center` chooses the others; else all of them are chosen at random.
    pub fn new(
        c: usize,
        samples: Vec<Vec<u32>>,
        is_spherical: bool,
        prefer_kmeanspp: bool,
        rng: &mut StdRng,
    ) -> (r: LloydKMeans)
        requires
            c > 0,
            samples@.len() > 0,
            !prefer_kmeanspp ==> c <= samples@.len() && (samples@.len() <= u32::MAX || c
                < samples@.len()),
        ensures
            r.wf(),
            r.c == c,
            r.is_spherical == is_spherical,
            r.dims == samples@[0]@.len(),
            r.samples == samples,
            r.assign@.len() == 0,
            forall|i: int| 0 <= i < r.weight@.len() ==> #[trigger] r.weight@[i] == INFINITY,
            r.centroids@.len() == if prefer_kmeanspp {
                1
            } else {
                c as int
            },
            exists|indices: Seq<usize>| #[trigger] picks(samples@, indices, r.centroids@),
    {
        let n: usize = samples.len();
        let dims: usize = samples[0].len();
        let indices: Vec<usize> = if prefer_kmeanspp {
            let mut first: Vec<usize> = Vec::new();
            first.push(random_index(rng, n));
            first
        } else {
            sample_indices(rng, n, c)
        };
        let centroids = centers_at(samples.as_slice(), indices.as_slice());
        assert(picks(samples@, indices@, centroids@));
        let mut weight: Vec<u32> = Vec::new();
        for j in 0..n
            invariant
                weight@.len() == j,
                forall|k: int| 0 <= k < j ==> #[trigger] weight@[k] == INFINITY,
        {
            weight.push(INFINITY);
        }
        LloydKMeans {
            dims,
            c,
            is_spherical,
            centroids,
            assign: Vec::new(),
            weight,
            samples,
        }
    }

    /// Whether centroids are still to be chosen.
    pub fn needs_center(&self) -> (r: bool)
        ensures
            r == (self.centroids@.len() < self.c),
    {
        self.centroids.len() < self.c
    }

    /// Takes account of the squared distance of each sample to the last centroid.
    pub fn note_distances(&mut self, distances: &[u32])
        requires
            old(self).wf(),
            distances@.len() == old(self).samples@.len(),
        ensures
            final(self).wf(),
            final(self).weight@ == Seq::new(
                distances@.len(),
                |j: int| lowered_weight(old(self).weight@[j], distances@[j]),
            ),
            final(self).c == old(self).c,
            final(self).dims == old(self).dims,
            final(self).is_spherical == old(self).is_spherical,
            final(self).samples == old(self).samples,
            final(self).centroids@ == old(self).centroids@,
            final(self).assign@ == old(self).assign@,
    {
        lower_weights(&mut self.weight, distances);
    }

    /// Makes a sample the next centroid: the one on which a random choice falls.
    pub fn add_center(&mut self, remaining: &[u32])
        requires
            old(self).wf(),
            old(self).centroids@.len() < old(self).c,
            remaining@.len() == old(self).samples@.len() - 1,
        ensures
            final(self).wf(),
            final(self).centroids@.len() == old(self).centroids@.len() + 1,
            final(self).centroids@.drop_last() == old(self).centroids@,
            exists|r: int|
                #[trigger] chosen(remaining@, r) && final(self).centroids@.last()@
                    == old(self).samples@[r]@,
            final(self).weight == old(self).weight,
            final(self).c == old(self).c,
            final(self).dims == old(self).dims,
            final(self).is_spherical == old(self).is_spherical,
            final(self).samples == old(self).samples,
            final(self).assign@ == old(self).assign@,
    {
        let index: usize = weighted_index(remaining);
        let center = copy_of(&self.samples[index]);
        self.centroids.push(center);
        assert(self.centroids@.drop_last() =~= old(self).centroids@);
        assert(chosen(remaining@, index as int));
    }

    /// Ends a round of refinement: takes over the new centroids and assigns each sample to the
    /// nearest of them. Returns true if no sample went to another centroid than before.
    pub fn end_round(&mut self, centroids: Vec<Vec<u32>>, distances: &[Vec<u32>]) -> (r: bool)
        requires
            old(self).wf(),
            centroids@.len() == old(self).c,
            distances@.len() == old(self).samples@.len(),
            forall|i: int|
                0 <= i < distances@.len() ==> (#[trigger] distances@[i])@.len() == old(self).c,
        ensures
            final(self).wf(),
            final(self).centroids == centroids,
            final(self).assign@ == nearest_each(distances@),
            r == (old(self).assign@ == nearest_each(distances@)),
            forall|i: int|
                0 <= i < distances@.len() && has_number((#[trigger] distances@[i])@)
                    ==> is_nearest(distances@[i]@, final(self).assign@[i] as int),
            final(self).c == old(self).c,
            final(self).dims == old(self).dims,
            final(self).is_spherical == old(self).is_spherical,
            final(self).samples == old(self).samples,
            final(self).weight == old(self).weight,
    {
        let assign = assign_each(distances, self.c);
        let unchanged = same_numbers(&assign, &self.assign);
        self.centroids = centroids;
        self.assign = assign;
        unchanged
    }

    /// The centroids.
    pub fn finish(self) -> (r: Vec<Vec<u32>>)
        ensures
            r@ == self.centroids@,
    {
        self.centroids
    }
}

/// One more centroid is chosen: `distances_to` measures all samples against the last one,
/// weights are lowered to these distances, and `spend` takes the weights one after the other
/// from a random choice.
pub open spec fn is_choice<
    D: Fn(&Vec<Vec<u32>>, &Vec<u32>) -> Vec<u32>,
    S: Fn(&Vec<u32>) -> Vec<u32>,
>(
    distances_to: D,
    spend: S,
    samples: Vec<Vec<u32>>,
    before: (Vec<u32>, Seq<Vec<u32>>),
    after: (Vec<u32>, Seq<Vec<u32>>),
) -> bool {
    exists|distances: Vec<u32>, remaining: Vec<u32>, r: int|
        {
            &&& #[trigger] call_ensures(distances_to, (&samples, &before.1.last()), distances)
            &&& #[trigger] call_ensures(spend, (&after.0,), remaining)
            &&& #[trigger] chosen(remaining@, r)
            &&& after.0@ == Seq::new(
                distances@.len(),
                |j: int| lowered_weight(before.0@[j], distances@[j]),
            )
            &&& after.1.len() == before.1.len() + 1
            &&& after.1.drop_last() == before.1
            &&& after.1.last()@ == samples@[r]@
        }
}

/// A choice adds one centroid, which is a sample: the one on which the choice falls that `spend`
/// took from the lowered weights. No weight grows, and none exceeds the distance to the centroid
/// that was chosen last.
pub proof fn law_choice_adds_a_sample<
    D: Fn(&Vec<Vec<u32>>, &Vec<u32>) -> Vec<u32>,
    S: Fn(&Vec<u32>) -> Vec<u32>,
>(
    distances_to: D,
    spend: S,
    samples: Vec<Vec<u32>>,
    before: (Vec<u32>, Seq<Vec<u32>>),
    after: (Vec<u32>, Seq<Vec<u32>>),
)
    requires
        is_choice(distances_to, spend, samples, before, after),
    ensures
        after.1.len() == before.1.len() + 1,
        after.1.drop_last() == before.1,
        exists|distances: Vec<u32>|
            {
                &&& #[trigger] call_ensures(
                    distances_to,
                    (&samples, &before.1.last()),
                    distances,
                )
                &&& after.0@.len() == distances@.len()
                &&& forall|j: int|
                    0 <= j < distances@.len() ==> {
                        &&& !smaller(distances@[j], #[trigger] after.0@[j])
                        &&& !smaller(before.0@[j], after.0@[j])
                        &&& after.0@[j] == distances@[j] || after.0@[j] == before.0@[j]
                    }
            },
        exists|remaining: Vec<u32>, r: int|
            {
                &&& #[trigger] call_ensures(spend, (&after.0,), remaining)
                &&& #[trigger] chosen(remaining@, r)
                &&& after.1.last()@ == samples@[r]@
            },
{
    let (distances, remaining, r) = choose|
        distances: Vec<u32>,
        remaining: Vec<u32>,
        r: int,
    |
        {
            &&& #[trigger] call_ensures(distances_to, (&samples, &before.1.last()), distances)
            &&& #[trigger] call_ensures(spend, (&after.0,), remaining)
            &&& #[trigger] chosen(remaining@, r)
            &&& after.0@ == Seq::new(
                distances@.len(),
                |j: int| lowered_weight(before.0@[j], distances@[j]),
            )
            &&& after.1.len() == before.1.len() + 1
            &&& after.1.drop_last() == before.1
            &&& after.1.last()@ == samples@[r]@
        };
    assert(call_ensures(distances_to, (&samples, &before.1.last()), distances));
    assert(call_ensures(spend, (&after.0,), remaining) && chosen(remaining@, r));
    assert forall|j: int| 0 <= j < distances@.len() implies {
        &&& !smaller(distances@[j], #[trigger] after.0@[j])
        &&& !smaller(before.0@[j], after.0@[j])
        &&& after.0@[j] == distances@[j] || after.0@[j] == before.0@[j]
    } by {
        assert(after.0@[j] == lowered_weight(before.0@[j], distances@[j]));
    }
}

/// The weights and centroids after each choice.
pub open spec fn is_choosing<
    D: Fn(&Vec<Vec<u32>>, &Vec<u32>) -> Vec<u32>,
    S: Fn(&Vec<u32>) -> Vec<u32>,
>(
    distances_to: D,
    spend: S,
    samples: Vec<Vec<u32>>,
    history: Seq<(Vec<u32>, Seq<Vec<u32>>)>,
) -> bool {
    forall|k: int, l: int|
        0 <= k && l == k + 1 && l < history.len() ==> is_choice(
            distances_to,
            spend,
            samples,
            #[trigger] history[k],
            #[trigger] history[l],
        )
}

impl LloydKMeans {
    /// Chooses centroids until there are enough.
    pub fn choose_centers<
        D: Fn(&Vec<Vec<u32>>, &Vec<u32>) -> Vec<u32>,
        S: Fn(&Vec<u32>) -> Vec<u32>,
    >(&mut self, distances_to: &D, spend: &S)
        requires
            old(self).wf(),
            forall|center: &Vec<u32>| #[trigger]
                call_requires(*distances_to, (&old(self).samples, center)),
            forall|center: &Vec<u32>, distances: Vec<u32>| #[trigger]
                call_ensures(*distances_to, (&old(self).samples, center), distances)
                    ==> distances@.len() == old(self).samples@.len(),
            forall|weight: &Vec<u32>| #[trigger] call_requires(*spend, (weight,)),
            forall|weight: &Vec<u32>, remaining: Vec<u32>| #[trigger]
                call_ensures(*spend, (weight,), remaining) ==> remaining@.len() == weight@.len() - 1,
        ensures
            final(self).wf(),
            final(self).centroids@.len() == final(self).c,
            exists|history: Seq<(Vec<u32>, Seq<Vec<u32>>)>|
                {
                    &&& #[trigger] is_choosing(*distances_to, *spend, old(self).samples, history)
                    &&& history.len() > 0
                    &&& history[0] == (old(self).weight, old(self).centroids@)
                    &&& history.last() == (final(self).weight, final(self).centroids@)
                },
            final(self).c == old(self).c,
            final(self).dims == old(self).dims,
            final(self).is_spherical == old(self).is_spherical,
            final(self).samples == old(self).samples,
            final(self).assign@ == old(self).assign@,
    {
        let ghost samples = self.samples;
        let ghost mut history = seq![(self.weight, self.centroids@)];
        while self.needs_center()
            invariant
                self.wf(),
                samples == old(self).samples,
                self.samples == samples,
                self.c == old(self).c,
                self.dims == old(self).dims,
                self.is_spherical == old(self).is_spherical,
                self.assign@ == old(self).assign@,
                forall|center: &Vec<u32>| #[trigger]
                    call_requires(*distances_to, (&samples, center)),
                forall|center: &Vec<u32>, distances: Vec<u32>| #[trigger]
                    call_ensures(*distances_to, (&samples, center), distances) ==> distances@.len()
                        == samples@.len(),
                forall|weight: &Vec<u32>| #[trigger] call_requires(*spend, (weight,)),
                forall|weight: &Vec<u32>, remaining: Vec<u32>| #[trigger]
                    call_ensures(*spend, (weight,), remaining) ==> remaining@.len() == weight@.len()
                        - 1,
                is_choosing(*distances_to, *spend, samples, history),
                history.len() > 0,
                history[0] == (old(self).weight, old(self).centroids@),
                history.last() == (self.weight, self.centroids@),
            decreases self.c - self.centroids@.len(),
        {
            let ghost before = history.last();
            let last: usize = self.centroids.len() - 1;
            let distances = distances_to(&self.samples, &self.centroids[last]);
            self.note_distances(distances.as_slice());
            let remaining = spend(&self.weight);
            self.add_center(remaining.as_slice());
            proof {
                let after = (self.weight, self.centroids@);
                let r = choose|r: int| #[trigger]
                    chosen(remaining@, r) && self.centroids@.last()@ == samples@[r]@;
                assert(call_ensures(*distances_to, (&samples, &before.1.last()), distances));
                assert(call_ensures(*spend, (&after.0,), remaining));
                assert(chosen(remaining@, r));
                assert(is_choice(*distances_to, *spend, samples, before, after));
                let earlier = history;
                history = history.push(after);
                assert forall|k: int, l: int|
                    0 <= k && l == k + 1 && l < history.len() implies is_choice(
                    *distances_to,
                    *spend,
                    samples,
                    #[trigger] history[k],
                    #[trigger] history[l],
                ) by {
                    if l < earlier.len() {
                        assert(earlier[k] == history[k] && earlier[l] == history[l]);
                    }
                }
            }
        }
    }
}

/// One round of refinement: `refined` gives the new centroids and `measure` the squared
/// distances of all samples to them, and each sample goes to the nearest.
pub open spec fn is_iteration<
    N: Fn(&LloydKMeans) -> Vec<Vec<u32>>,
    M: Fn(&Vec<Vec<u32>>, &Vec<Vec<u32>>) -> Vec<Vec<u32>>,
>(refined: N, measure: M, before: LloydKMeans, after: LloydKMeans) -> bool {
    &&& call_ensures(refined, (&before,), after.centroids)
    &&& after.follows(before)
    &&& exists|distances: Vec<Vec<u32>>| #[trigger]
        call_ensures(measure, (&before.samples, &after.centroids), distances) && after.assign@
            == nearest_each(distances@)
}

/// After a round the centroids are the refined ones, and every sample that has any distance to
/// them is with a nearest of them.
pub proof fn law_round_takes_samples_to_the_nearest<
    N: Fn(&LloydKMeans) -> Vec<Vec<u32>>,
    M: Fn(&Vec<Vec<u32>>, &Vec<Vec<u32>>) -> Vec<Vec<u32>>,
>(refined: N, measure: M, before: LloydKMeans, after: LloydKMeans)
    requires
        is_iteration(refined, measure, before, after),
        before.can_measure(measure),
        before.c > 0,
    ensures
        call_ensures(refined, (&before,), after.centroids),
        after.samples == before.samples,
        after.c == before.c,
        after.dims == before.dims,
        after.is_spherical == before.is_spherical,
        after.weight == before.weight,
        after.assign@.len() == before.samples@.len(),
        exists|distances: Vec<Vec<u32>>|
            {
                &&& #[trigger] call_ensures(
                    measure,
                    (&before.samples, &after.centroids),
                    distances,
                )
                &&& forall|i: int|
                    0 <= i < distances@.len() && has_number((#[trigger] distances@[i])@)
                        ==> is_nearest(distances@[i]@, after.assign@[i] as int)
            },
{
    let distances = choose|distances: Vec<Vec<u32>>| #[trigger]
        call_ensures(measure, (&before.samples, &after.centroids), distances) && after.assign@
            == nearest_each(distances@);
    lemma_nearest_each_is_nearest(distances, before.c as int);
}

proof fn lemma_nearest_each_is_nearest(distances: Vec<Vec<u32>>, c: int)
    requires
        0 < c <= usize::MAX,
        forall|i: int| 0 <= i < distances@.len() ==> (#[trigger] distances@[i])@.len() == c,
    ensures
        nearest_each(distances@).len() == distances@.len(),
        forall|i: int|
            0 <= i < distances@.len() && has_number((#[trigger] distances@[i])@) ==> is_nearest(
                distances@[i]@,
                nearest_each(distances@)[i] as int,
            ),
{
    assert forall|i: int|
        0 <= i < distances@.len() && has_number((#[trigger] distances@[i])@) implies is_nearest(
        distances@[i]@,
        nearest_each(distances@)[i] as int,
    ) by {
        law_nearest_is_nearest(distances@[i]@, 0);
    }
}

/// The grouping after each round.
pub open spec fn is_refinement<
    N: Fn(&LloydKMeans) -> Vec<Vec<u32>>,
    M: Fn(&Vec<Vec<u32>>, &Vec<Vec<u32>>) -> Vec<Vec<u32>>,
>(refined: N, measure: M, history: Seq<LloydKMeans>) -> bool {
    forall|k: int, l: int|
        0 <= k && l == k + 1 && l < history.len() ==> is_iteration(
            refined,
            measure,
            #[trigger] history[k],
            #[trigger] history[l],
        )
}

/// In a round no sample went to another centroid.
pub open spec fn unchanged_at(history: Seq<LloydKMeans>, k: int) -> bool {
    history[k + 1].assign@ == history[k].assign@
}

impl LloydKMeans {
    /// All centroids have been chosen.
    pub open spec fn complete(self) -> bool {
        self.wf() && self.centroids@.len() == self.c
    }

    /// The samples and what is wanted of them are the same.
    pub open spec fn follows(self, before: LloydKMeans) -> bool {
        &&& self.c == before.c
        &&& self.dims == before.dims
        &&& self.is_spherical == before.is_spherical
        &&& self.samples == before.samples
        &&& self.weight == before.weight
    }

    /// Rounds of refinement can be made: there are new centroids for every grouping of these
    /// samples, and a distance for each sample and centroid.
    pub open spec fn can_refine<
        N: Fn(&LloydKMeans) -> Vec<Vec<u32>>,
        M: Fn(&Vec<Vec<u32>>, &Vec<Vec<u32>>) -> Vec<Vec<u32>>,
    >(self, refined: N, measure: M) -> bool {
        &&& forall|state: &LloydKMeans|
            state.complete() && state.follows(self) ==> #[trigger] call_requires(
                refined,
                (state,),
            )
        &&& forall|state: &LloydKMeans, centroids: Vec<Vec<u32>>| #[trigger]
            call_ensures(refined, (state,), centroids) && state.follows(self)
                ==> centroids@.len() == self.c
        &&& self.can_measure(measure)
    }

    /// All samples can be measured against centroids.
    pub open spec fn can_measure<M: Fn(&Vec<Vec<u32>>, &Vec<Vec<u32>>) -> Vec<Vec<u32>>>(
        self,
        measure: M,
    ) -> bool {
        &&& forall|centroids: &Vec<Vec<u32>>|
            centroids@.len() == self.c ==> #[trigger] call_requires(
                measure,
                (&self.samples, centroids),
            )
        &&& forall|centroids: &Vec<Vec<u32>>, distances: Vec<Vec<u32>>| #[trigger]
            call_ensures(measure, (&self.samples, centroids), distances) ==> {
                &&& distances@.len() == self.samples@.len()
                &&& forall|i: int|
                    0 <= i < distances@.len() ==> (#[trigger] distances@[i])@.len() == self.c
            }
    }

    /// Assigns each sample to the nearest of the centroids that were chosen.
    pub fn assign_samples<M: Fn(&Vec<Vec<u32>>, &Vec<Vec<u32>>) -> Vec<Vec<u32>>>(
        &mut self,
        measure: &M,
    )
        requires
            old(self).complete(),
            old(self).can_measure(*measure),
        ensures
            final(self).complete(),
            final(self).follows(*old(self)),
            final(self).centroids == old(self).centroids,
            exists|distances: Vec<Vec<u32>>| #[trigger]
                call_ensures(*measure, (&old(self).samples, &old(self).centroids), distances)
                    && final(self).assign@ == nearest_each(distances@),
    {
        let distances = measure(&self.samples, &self.centroids);
        self.assign = assign_each(distances.as_slice(), self.c);
    }

    /// Makes one round of refinement. Returns true if no sample went to another centroid.
    pub fn iterate<
        N: Fn(&LloydKMeans) -> Vec<Vec<u32>>,
        M: Fn(&Vec<Vec<u32>>, &Vec<Vec<u32>>) -> Vec<Vec<u32>>,
    >(&mut self, refined: &N, measure: &M) -> (r: bool)
        requires
            old(self).complete(),
            old(self).can_refine(*refined, *measure),
        ensures
            final(self).complete(),
            is_iteration(*refined, *measure, *old(self), *final(self)),
            r == (final(self).assign@ == old(self).assign@),
    {
        let centroids = refined(self);
        let distances = measure(&self.samples, &centroids);
        self.end_round(centroids, distances.as_slice())
    }

    /// Refines the centroids, until a round changes nothing or a number of rounds has been
    /// made. Returns how many have.
    pub fn refine<
        N: Fn(&LloydKMeans) -> Vec<Vec<u32>>,
        M: Fn(&Vec<Vec<u32>>, &Vec<Vec<u32>>) -> Vec<Vec<u32>>,
    >(&mut self, iterations: usize, refined: &N, measure: &M) -> (r: usize)
        requires
            old(self).complete(),
            old(self).can_refine(*refined, *measure),
        ensures
            final(self).complete(),
            final(self).follows(*old(self)),
            r <= iterations,
            exists|history: Seq<LloydKMeans>|
                {
                    &&& #[trigger] is_refinement(*refined, *measure, history)
                    &&& history.len() == r + 1
                    &&& history[0] == *old(self)
                    &&& history.last() == *final(self)
                    &&& forall|k: int| 0 <= k < r - 1 ==> !#[trigger] unchanged_at(history, k)
                    &&& r < iterations ==> r > 0 && unchanged_at(history, r - 1)
                },
    {
        let ghost mut history = seq![*self];
        let mut rounds: usize = 0;
        let mut unchanged = false;
        while rounds < iterations && !unchanged
            invariant
                self.complete(),
                self.follows(*old(self)),
                old(self).can_refine(*refined, *measure),
                rounds <= iterations,
                is_refinement(*refined, *measure, history),
                history.len() == rounds + 1,
                history[0] == *old(self),
                history.last() == *self,
                forall|k: int| 0 <= k < rounds - 1 ==> !#[trigger] unchanged_at(history, k),
                rounds > 0 ==> unchanged == unchanged_at(history, rounds - 1),
                rounds == 0 ==> !unchanged,
            decreases iterations - rounds,
        {
            let ghost before = *self;
            assert(self.can_refine(*refined, *measure));
            unchanged = self.iterate(refined, measure);
            proof {
                let earlier = history;
                history = history.push(*self);
                assert forall|k: int, l: int|
                    0 <= k && l == k + 1 && l < history.len() implies is_iteration(
                    *refined,
                    *measure,
                    #[trigger] history[k],
                    #[trigger] history[l],
                ) by {
                    if l < earlier.len() {
                        assert(earlier[k] == history[k] && earlier[l] == history[l]);
                    }
                }
                assert forall|k: int| 0 <= k < rounds implies !#[trigger] unchanged_at(
                    history,
                    k,
                ) by {
                    assert(unchanged_at(earlier, k) == unchanged_at(history, k));
                }
            }
            rounds = rounds + 1;
        }
        rounds
    }
}

/// The first centroids of some samples have been chosen at random: all of them, or only one if
/// they are to be spread out.
pub open spec fn is_start(
    c: int,
    samples: Vec<Vec<u32>>,
    is_spherical: bool,
    prefer_kmeanspp: bool,
    start: LloydKMeans,
) -> bool {
    &&& start.wf()
    &&& start.c == c
    &&& start.samples == samples
    &&& start.is_spherical == is_spherical
    &&& start.dims == samples@[0]@.len()
    &&& start.assign@.len() == 0
    &&& forall|i: int| 0 <= i < start.weight@.len() ==> #[trigger] start.weight@[i] == INFINITY
    &&& start.centroids@.len() == if prefer_kmeanspp {
        1
    } else {
        c
    }
    &&& exists|indices: Seq<usize>| #[trigger] picks(samples@, indices, start.centroids@)
}

/// The other centroids have been chosen.
pub open spec fn is_chosen<
    D: Fn(&Vec<Vec<u32>>, &Vec<u32>) -> Vec<u32>,
    S: Fn(&Vec<u32>) -> Vec<u32>,
>(distances_to: D, spend: S, start: LloydKMeans, after: LloydKMeans) -> bool {
    &&& after.complete()
    &&& after.c == start.c
    &&& after.samples == start.samples
    &&& after.is_spherical == start.is_spherical
    &&& after.dims == start.dims
    &&& exists|history: Seq<(Vec<u32>, Seq<Vec<u32>>)>|
        {
            &&& #[trigger] is_choosing(distances_to, spend, start.samples, history)
            &&& history.len() > 0
            &&& history[0] == (start.weight, start.centroids@)
            &&& history.last() == (after.weight, after.centroids@)
        }
}

/// Each sample has been assigned to the nearest of the chosen centroids.
pub open spec fn is_assigned<M: Fn(&Vec<Vec<u32>>, &Vec<Vec<u32>>) -> Vec<Vec<u32>>>(
    measure: M,
    before: LloydKMeans,
    after: LloydKMeans,
) -> bool {
    &&& after.follows(before)
    &&& after.centroids == before.centroids
    &&& exists|distances: Vec<Vec<u32>>| #[trigger]
        call_ensures(measure, (&before.samples, &before.centroids), distances) && after.assign@
            == nearest_each(distances@)
}

/// Rounds of refinement have been made, until one changed nothing or there were enough.
pub open spec fn is_refined<
    N: Fn(&LloydKMeans) -> Vec<Vec<u32>>,
    M: Fn(&Vec<Vec<u32>>, &Vec<Vec<u32>>) -> Vec<Vec<u32>>,
>(refined: N, measure: M, iterations: int, before: LloydKMeans, after: LloydKMeans) -> bool {
    exists|history: Seq<LloydKMeans>|
        {
            &&& #[trigger] is_refinement(refined, measure, history)
            &&& 0 < history.len() <= iterations + 1
            &&& history[0] == before
            &&& history.last() == after
            &&& forall|k: int|
                0 <= k < history.len() - 2 ==> !#[trigger] unchanged_at(history, k)
            &&& history.len() <= iterations ==> history.len() > 1 && unchanged_at(
                history,
                history.len() - 2,
            )
        }
}

/// At first there are as many centroids as are wanted, or one if they are to be spread out. They
/// are samples at different places, nothing is assigned, and every weight is infinite.
pub proof fn law_first_centroids_are_samples(
    c: int,
    samples: Vec<Vec<u32>>,
    is_spherical: bool,
    prefer_kmeanspp: bool,
    start: LloydKMeans,
)
    requires
        is_start(c, samples, is_spherical, prefer_kmeanspp, start),
    ensures
        start.samples == samples,
        start.c == c,
        start.is_spherical == is_spherical,
        start.assign@.len() == 0,
        start.centroids@.len() == if prefer_kmeanspp {
            1
        } else {
            c
        },
        start.weight@.len() == samples@.len(),
        forall|j: int| 0 <= j < samples@.len() ==> #[trigger] start.weight@[j] == 0x7F80_0000,
        exists|indices: Seq<usize>|
            {
                &&& #[trigger] indices.no_duplicates()
                &&& indices.len() == start.centroids@.len()
                &&& forall|i: int|
                    0 <= i < indices.len() ==> {
                        &&& (#[trigger] indices[i]) < samples@.len()
                        &&& start.centroids@[i]@ == samples@[indices[i] as int]@
                    }
            },
{
    let indices = choose|indices: Seq<usize>| #[trigger]
        picks(samples@, indices, start.centroids@);
    assert(indices.no_duplicates());
    assert forall|i: int| 0 <= i < indices.len() implies {
        &&& (#[trigger] indices[i]) < samples@.len()
        &&& start.centroids@[i]@ == samples@[indices[i] as int]@
    } by {
        assert(start.centroids@[i]@ == samples@[indices[i] as int]@);
    }
}

/// The first assignment takes every sample to a nearest of the chosen centroids.
pub proof fn law_first_assignment_is_to_the_nearest<
    M: Fn(&Vec<Vec<u32>>, &Vec<Vec<u32>>) -> Vec<Vec<u32>>,
>(measure: M, before: LloydKMeans, after: LloydKMeans)
    requires
        is_assigned(measure, before, after),
        before.can_measure(measure),
        before.c > 0,
    ensures
        after.centroids == before.centroids,
        after.samples == before.samples,
        after.c == before.c,
        after.dims == before.dims,
        after.is_spherical == before.is_spherical,
        after.weight == before.weight,
        after.assign@.len() == before.samples@.len(),
        exists|distances: Vec<Vec<u32>>|
            {
                &&& #[trigger] call_ensures(
                    measure,
                    (&before.samples, &before.centroids),
                    distances,
                )
                &&& forall|i: int|
                    0 <= i < distances@.len() && has_number((#[trigger] distances@[i])@)
                        ==> is_nearest(distances@[i]@, after.assign@[i] as int)
            },
{
    let distances = choose|distances: Vec<Vec<u32>>| #[trigger]
        call_ensures(measure, (&before.samples, &before.centroids), distances) && after.assign@
            == nearest_each(distances@);
    lemma_nearest_each_is_nearest(distances, before.c as int);
}

/// Refinement ends with a round in which no sample went to another centroid, unless as many
/// rounds were made as were asked for; without any round nothing has changed.
pub proof fn law_refinement_ends_when_nothing_moves<
    N: Fn(&LloydKMeans) -> Vec<Vec<u32>>,
    M: Fn(&Vec<Vec<u32>>, &Vec<Vec<u32>>) -> Vec<Vec<u32>>,
>(refined: N, measure: M, iterations: int, before: LloydKMeans, after: LloydKMeans)
    requires
        is_refined(refined, measure, iterations, before, after),
        0 <= iterations,
    ensures
        iterations == 0 ==> after == before,
        iterations > 0 ==> exists|last: LloydKMeans| #[trigger]
            is_iteration(refined, measure, last, after),
        exists|history: Seq<LloydKMeans>|
            {
                &&& #[trigger] is_refinement(refined, measure, history)
                &&& history[0] == before
                &&& history.last() == after
                &&& history.len() == iterations + 1 || (1 < history.len() <= iterations
                    && history[history.len() - 2].assign@ == after.assign@)
            },
{
    let history = choose|history: Seq<LloydKMeans>|
        {
            &&& #[trigger] is_refinement(refined, measure, history)
            &&& 0 < history.len() <= iterations + 1
            &&& history[0] == before
            &&& history.last() == after
            &&& forall|k: int|
                0 <= k < history.len() - 2 ==> !#[trigger] unchanged_at(history, k)
            &&& history.len() <= iterations ==> history.len() > 1 && unchanged_at(
                history,
                history.len() - 2,
            )
        };
    let n = history.len() as int;
    if n > 1 {
        assert(is_iteration(refined, measure, history[n - 2], history[n - 1]));
    }
    assert(is_refinement(refined, measure, history));
}

/// Centroids come from a whole run: they are chosen, samples are assigned to them, and they are
/// refined.
pub open spec fn is_run<
    D: Fn(&Vec<Vec<u32>>, &Vec<u32>) -> Vec<u32>,
    S: Fn(&Vec<u32>) -> Vec<u32>,
    N: Fn(&LloydKMeans) -> Vec<Vec<u32>>,
    M: Fn(&Vec<Vec<u32>>, &Vec<Vec<u32>>) -> Vec<Vec<u32>>,
>(
    distances_to: D,
    spend: S,
    refined: N,
    measure: M,
    iterations: int,
    start: LloydKMeans,
    centroids: Seq<Vec<u32>>,
) -> bool {
    exists|after: LloydKMeans, assigned: LloydKMeans, last: LloydKMeans|
        {
            &&& #[trigger] is_chosen(distances_to, spend, start, after)
            &&& #[trigger] is_assigned(measure, after, assigned)
            &&& #[trigger] is_refined(refined, measure, iterations, assigned, last)
            &&& last.centroids@ == centroids
        }
}

/// The centroids of a run are those of its last round of refinement; without any round they are
/// those that were chosen.
pub proof fn law_run_ends_with_a_round<
    D: Fn(&Vec<Vec<u32>>, &Vec<u32>) -> Vec<u32>,
    S: Fn(&Vec<u32>) -> Vec<u32>,
    N: Fn(&LloydKMeans) -> Vec<Vec<u32>>,
    M: Fn(&Vec<Vec<u32>>, &Vec<Vec<u32>>) -> Vec<Vec<u32>>,
>(
    distances_to: D,
    spend: S,
    refined: N,
    measure: M,
    iterations: int,
    start: LloydKMeans,
    centroids: Seq<Vec<u32>>,
)
    requires
        is_run(distances_to, spend, refined, measure, iterations, start, centroids),
        0 <= iterations,
    ensures
        iterations > 0 ==> exists|before: LloydKMeans, last: LloydKMeans| #[trigger]
            is_iteration(refined, measure, before, last) && last.centroids@ == centroids,
        iterations == 0 ==> exists|chosen: LloydKMeans| #[trigger]
            is_chosen(distances_to, spend, start, chosen) && chosen.centroids@ == centroids,
        exists|chosen: LloydKMeans, assigned: LloydKMeans|
            #[trigger] is_chosen(distances_to, spend, start, chosen) && #[trigger] is_assigned(
                measure,
                chosen,
                assigned,
            ),
{
    let (chosen, assigned, last) = choose|
        after: LloydKMeans,
        assigned: LloydKMeans,
        last: LloydKMeans,
    |
        {
            &&& #[trigger] is_chosen(distances_to, spend, start, after)
            &&& #[trigger] is_assigned(measure, after, assigned)
            &&& #[trigger] is_refined(refined, measure, iterations, assigned, last)
            &&& last.centroids@ == centroids
        };
    law_refinement_ends_when_nothing_moves(refined, measure, iterations, assigned, last);
    if iterations > 0 {
        let before = choose|before: LloydKMeans| #[trigger]
            is_iteration(refined, measure, before, last);
        assert(is_iteration(refined, measure, before, last));
    }
    assert(is_chosen(distances_to, spend, start, chosen) && is_assigned(
        measure,
        chosen,
        assigned,
    ));
}

/// Choosing goes on one by one: there are as many centroids as are wanted in the end, those that
/// were there at the start are still the first, and every other one is a sample.
pub proof fn law_chosen_centroids_are_samples<
    D: Fn(&Vec<Vec<u32>>, &Vec<u32>) -> Vec<u32>,
    S: Fn(&Vec<u32>) -> Vec<u32>,
>(distances_to: D, spend: S, start: LloydKMeans, after: LloydKMeans, i: int)
    requires
        is_chosen(distances_to, spend, start, after),
        can_choose(distances_to, spend, start.samples),
        start.samples@.len() > 0,
        0 <= i < start.c,
    ensures
        after.samples == start.samples,
        after.centroids@.len() == start.c,
        i < start.centroids@.len() ==> after.centroids@[i] == start.centroids@[i],
        i >= start.centroids@.len() ==> exists|r: int|
            0 <= r < start.samples@.len() && after.centroids@[i]@ == (
            #[trigger] start.samples@[r])@,
{
    let history = choose|history: Seq<(Vec<u32>, Seq<Vec<u32>>)>|
        {
            &&& #[trigger] is_choosing(distances_to, spend, start.samples, history)
            &&& history.len() > 0
            &&& history[0] == (start.weight, start.centroids@)
            &&& history.last() == (after.weight, after.centroids@)
        };
    lemma_choosing_adds_samples(
        distances_to,
        spend,
        start.samples,
        history,
        history.len() - 1,
        i,
    );
}

proof fn lemma_choosing_adds_samples<
    D: Fn(&Vec<Vec<u32>>, &Vec<u32>) -> Vec<u32>,
    S: Fn(&Vec<u32>) -> Vec<u32>,
>(
    distances_to: D,
    spend: S,
    samples: Vec<Vec<u32>>,
    history: Seq<(Vec<u32>, Seq<Vec<u32>>)>,
    k: int,
    i: int,
)
    requires
        is_choosing(distances_to, spend, samples, history),
        can_choose(distances_to, spend, samples),
        0 <= k < history.len(),
        samples@.len() > 0,
    ensures
        history[k].1.len() == history[0].1.len() + k,
        0 <= i < history[0].1.len() ==> history[k].1[i] == history[0].1[i],
        history[0].1.len() <= i < history[k].1.len() ==> exists|r: int|
            0 <= r < samples@.len() && history[k].1[i]@ == (#[trigger] samples@[r])@,
    decreases k,
{
    if k > 0 {
        lemma_choosing_adds_samples(distances_to, spend, samples, history, k - 1, i);
        let (before, after) = (history[k - 1], history[k]);
        assert(is_choice(distances_to, spend, samples, before, after));
        law_choice_adds_a_sample(distances_to, spend, samples, before, after);
        assert(forall|j: int| 0 <= j < before.1.len() ==> after.1.drop_last()[j] == after.1[j]);
        if i == before.1.len() {
            let distances = choose|distances: Vec<u32>|
                {
                    &&& #[trigger] call_ensures(
                        distances_to,
                        (&samples, &before.1.last()),
                        distances,
                    )
                    &&& after.0@.len() == distances@.len()
                };
            let (remaining, r) = choose|remaining: Vec<u32>, r: int|
                {
                    &&& #[trigger] call_ensures(spend, (&after.0,), remaining)
                    &&& #[trigger] chosen(remaining@, r)
                    &&& after.1.last()@ == samples@[r]@
                };
            assert(remaining@.len() == samples@.len() - 1);
            assert(after.1[i]@ == samples@[r]@);
        }
    }
}

/// Centroids of samples can be chosen one by one: there is a distance for each sample, and what
/// is left of a random choice after each weight but the last.
pub open spec fn can_choose<
    D: Fn(&Vec<Vec<u32>>, &Vec<u32>) -> Vec<u32>,
    S: Fn(&Vec<u32>) -> Vec<u32>,
>(distances_to: D, spend: S, samples: Vec<Vec<u32>>) -> bool {
    &&& forall|center: &Vec<u32>| #[trigger] call_requires(distances_to, (&samples, center))
    &&& forall|center: &Vec<u32>, distances: Vec<u32>| #[trigger]
        call_ensures(distances_to, (&samples, center), distances) ==> distances@.len()
            == samples@.len()
    &&& forall|weight: &Vec<u32>| #[trigger] call_requires(spend, (weight,))
    &&& forall|weight: &Vec<u32>, remaining: Vec<u32>| #[trigger]
        call_ensures(spend, (weight,), remaining) ==> remaining@.len() == weight@.len() - 1
}

/// Finds `c` centroids of some samples: chooses the first ones, assigns each sample to the
/// nearest, and refines them.
pub fn find_centroids<
    D: Fn(&Vec<Vec<u32>>, &Vec<u32>) -> Vec<u32>,
    S: Fn(&Vec<u32>) -> Vec<u32>,
    N: Fn(&LloydKMeans) -> Vec<Vec<u32>>,
    M: Fn(&Vec<Vec<u32>>, &Vec<Vec<u32>>) -> Vec<Vec<u32>>,
>(
    c: usize,
    samples: Vec<Vec<u32>>,
    is_spherical: bool,
    iterations: usize,
    prefer_kmeanspp: bool,
    rng: &mut StdRng,
    distances_to: D,
    spend: S,
    refined: N,
    measure: M,
) -> (r: Vec<Vec<u32>>)
    requires
        c > 0,
        samples@.len() > 0,
        !prefer_kmeanspp ==> c <= samples@.len() && (samples@.len() <= u32::MAX || c
            < samples@.len()),
        can_choose(distances_to, spend, samples),
        forall|state: LloydKMeans|
            state.c == c && state.samples == samples ==> #[trigger] state.can_refine(
                refined,
                measure,
            ),
    ensures
        r@.len() == c,
        exists|start: LloydKMeans|
            #[trigger] is_start(c as int, samples, is_spherical, prefer_kmeanspp, start) && is_run(
                distances_to,
                spend,
                refined,
                measure,
                iterations as int,
                start,
                r@,
            ),
{
    let ghost all = samples;
    let mut k = LloydKMeans::new(c, samples, is_spherical, prefer_kmeanspp, rng);
    let ghost start = k;
    assert(is_start(c as int, all, is_spherical, prefer_kmeanspp, start));
    assert(can_choose(distances_to, spend, k.samples));
    k.choose_centers(&distances_to, &spend);
    let ghost after = k;
    assert(is_chosen(distances_to, spend, start, after));
    assert(k.can_refine(refined, measure));
    k.assign_samples(&measure);
    let ghost assigned = k;
    assert(is_assigned(measure, after, assigned));
    assert(k.can_refine(refined, measure));
    k.refine(iterations, &refined, &measure);
    assert(is_refined(refined, measure, iterations as int, assigned, k));
    let r = k.finish();
    assert(is_run(distances_to, spend, refined, measure, iterations as int, start, r@));
    r
}

/// Whether two lists hold the same numbers.
fn same_numbers(a: &Vec<usize>, b: &Vec<usize>) -> (r: bool)
    ensures
        r == (a@ == b@),
{
    if a.len() != b.len() {
        return false;
    }
    for i in 0..a.len()
        invariant
            a@.len() == b@.len(),
            forall|k: int| 0 <= k < i ==> a@[k] == b@[k],
    {
        if a[i] != b[i] {
            return false;
        }
    }
    assert(a@ =~= b@);
    true
}

} // verus!
