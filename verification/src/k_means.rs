//! Grouping vectors around centroids: everything but the arithmetic on their components,
//! whose results come in as bit patterns of single-precision numbers.
use crate::single::{is_no_larger, no_larger, not_a_number, smaller, INFINITY};
use vstd::prelude::*;

verus! {

/// How centroids are found.
#[derive(Clone, Copy, Debug, PartialEq, Eq, Structural)]
pub enum Method {
    /// The samples are the centroids, filled up with random vectors.
    QuickCenters,
    /// The samples are numbers, which are cut into intervals.
    OneDimensional,
    Lloyd,
}

/// How `c` centroids of `n` samples with `dims` components are found.
pub fn k_means_method(c: usize, n: usize, dims: usize) -> (r: Method)
    requires
        c > 0,
        dims > 0,
    ensures
        r == if n <= c {
            Method::QuickCenters
        } else if dims == 1 {
            Method::OneDimensional
        } else {
            Method::Lloyd
        },
{
    if n <= c {
        Method::QuickCenters
    } else if dims == 1 {
        Method::OneDimensional
    } else {
        Method::Lloyd
    }
}

/// The place of the smallest distance, the last one among equals. A distance that is no number
/// is never the smallest.
pub open spec fn is_nearest(distances: Seq<u32>, r: int) -> bool {
    &&& 0 <= r < distances.len()
    &&& !not_a_number(distances[r])
    &&& forall|j: int|
        0 <= j < distances.len() && !not_a_number(#[trigger] distances[j]) ==> no_larger(
            distances[r],
            distances[j],
        )
    &&& forall|j: int|
        r < j < distances.len() && !not_a_number(#[trigger] distances[j]) ==> smaller(
            distances[r],
            distances[j],
        )
}

/// Some distance is a number.
pub open spec fn has_number(distances: Seq<u32>) -> bool {
    exists|j: int| 0 <= j < distances.len() && !not_a_number(#[trigger] distances[j])
}

/// The centroid to which a vector belongs, given its squared distances to all of them.
pub open spec fn nearest(distances: Seq<u32>) -> int {
    if has_number(distances) {
        choose|r: int| is_nearest(distances, r)
    } else {
        0
    }
}

/// A vector belongs to one centroid only.
pub proof fn law_nearest_is_unique(distances: Seq<u32>, r: int, s: int)
    requires
        is_nearest(distances, r),
        is_nearest(distances, s),
    ensures
        r == s,
{
    if r < s {
        assert(smaller(distances[r], distances[s]));
    }
    if s < r {
        assert(smaller(distances[s], distances[r]));
    }
}

/// The nearest centroid, given the squared distances to all of them; the first one if no
/// distance is a number.
pub fn k_means_lookup(distances: &[u32]) -> (r: usize)
    requires
        distances@.len() > 0,
    ensures
        r == nearest(distances@),
        r < distances@.len(),
        has_number(distances@) ==> is_nearest(distances@, r as int),
{
    let mut best: u32 = INFINITY;
    let mut r: usize = 0;
    let ghost mut found = false;
    for i in 0..distances.len()
        invariant
            distances@.len() > 0,
            r < distances@.len(),
            !found ==> best == INFINITY && r == 0 && forall|j: int|
                0 <= j < i ==> not_a_number(#[trigger] distances@[j]),
            found ==> r < i && best == distances@[r as int] && is_nearest(
                distances@.take(i as int),
                r as int,
            ),
    {
        let dis: u32 = distances[i];
        if is_no_larger(dis, best) {
            proof {
                let seen = distances@.take(i + 1);
                assert forall|j: int|
                    0 <= j < seen.len() && !not_a_number(#[trigger] seen[j]) implies no_larger(
                    dis,
                    seen[j],
                ) by {
                    if j < i {
                        assert(seen[j] == distances@[j]);
                        assert(distances@.take(i as int)[j] == distances@[j]);
                    }
                }
                found = true;
            }
            best = dis;
            r = i;
        } else {
            proof {
                assert(best == INFINITY ==> not_a_number(dis));
                if found {
                    let seen = distances@.take(i + 1);
                    let before = distances@.take(i as int);
                    assert forall|j: int|
                        0 <= j < seen.len() && !not_a_number(#[trigger] seen[j]) implies no_larger(
                        best,
                        seen[j],
                    ) && (r < j ==> smaller(best, seen[j])) by {
                        if j < i {
                            assert(seen[j] == before[j]);
                        }
                    }
                }
            }
        }
    }
    proof {
        assert(distances@.take(distances@.len() as int) =~= distances@);
        if found {
            let s = choose|s: int| is_nearest(distances@, s);
            law_nearest_is_unique(distances@, r as int, s);
        }
    }
    r
}

/// All centroids with the squared distances to them, in their order.
pub fn k_means_lookup_many(distances: &[u32]) -> (r: Vec<(u32, usize)>)
    requires
        distances@.len() > 0,
    ensures
        r@ == Seq::new(distances@.len(), |i: int| (distances@[i], i as usize)),
{
    let mut r: Vec<(u32, usize)> = Vec::new();
    for i in 0..distances.len()
        invariant
            r@ == Seq::new(i as nat, |k: int| (distances@[k], k as usize)),
    {
        r.push((distances[i], i));
        assert(r@ =~= Seq::new((i + 1) as nat, |k: int| (distances@[k], k as usize)));
    }
    r
}

/// Every vector that has a distance to some centroid belongs to a centroid to which no other
/// is nearer.
pub proof fn law_nearest_is_nearest(distances: Seq<u32>, j: int)
    requires
        has_number(distances),
        0 <= j < distances.len(),
    ensures
        is_nearest(distances, nearest(distances)),
        !smaller(distances[j], distances[nearest(distances)]),
{
    lemma_nearest_exists(distances);
}

proof fn lemma_nearest_exists(distances: Seq<u32>)
    requires
        has_number(distances),
    ensures
        exists|r: int| is_nearest(distances, r),
    decreases distances.len(),
{
    let before = distances.drop_last();
    let last = distances.len() - 1;
    if has_number(before) {
        lemma_nearest_exists(before);
        let r = choose|r: int| is_nearest(before, r);
        let s = if no_larger(distances[last], distances[r]) {
            last
        } else {
            r
        };
        assert forall|j: int|
            0 <= j < distances.len() && !not_a_number(#[trigger] distances[j]) implies no_larger(
            distances[s],
            distances[j],
        ) && (s < j ==> smaller(distances[s], distances[j])) by {
            if j < last {
                assert(before[j] == distances[j]);
            }
        }
        assert(is_nearest(distances, s));
    } else {
        let j = choose|j: int| 0 <= j < distances.len() && !not_a_number(#[trigger] distances[j]);
        if j < last {
            assert(before[j] == distances[j]);
        }
        assert forall|i: int| 0 <= i < last implies not_a_number(#[trigger] distances[i]) by {
            assert(before[i] == distances[i]);
        }
        assert(is_nearest(distances, last));
    }
}

/// The first centroids are the samples; the others are given random components.
pub fn quick_centers(c: usize, samples: &[Vec<u32>], random: &[Vec<u32>]) -> (r: Vec<Vec<u32>>)
    requires
        c >= samples@.len(),
        c == random@.len(),
    ensures
        r@.len() == c,
        forall|i: int|
            0 <= i < c ==> (#[trigger] r@[i])@ == if i < samples@.len() {
                samples@[i]@
            } else {
                random@[i]@
            },
{
    let mut r: Vec<Vec<u32>> = Vec::new();
    for i in 0..c
        invariant
            c >= samples@.len(),
            c == random@.len(),
            r@.len() == i,
            forall|k: int|
                0 <= k < i ==> (#[trigger] r@[k])@ == if k < samples@.len() {
                    samples@[k]@
                } else {
                    random@[k]@
                },
    {
        let source = if i < samples.len() {
            &samples[i]
        } else {
            &random[i]
        };
        r.push(copy_of(source));
    }
    r
}

/// A copy of a vector.
pub fn copy_of(vector: &Vec<u32>) -> (r: Vec<u32>)
    ensures
        r@ == vector@,
{
    let mut r: Vec<u32> = Vec::new();
    r.extend_from_slice(vector.as_slice());
    assert(r@ =~= vector@);
    r
}

} // verus!
