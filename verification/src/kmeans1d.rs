//! Grouping numbers into intervals. The numbers are sorted, cut into runs, and the cuts are
//! moved until they stay where they are. What a cut costs comes in as the bit pattern of a
//! single-precision number.
use crate::single::{is_no_larger, is_smaller, no_larger, not_a_number, place, smaller, INFINITY, SIGN};
use vstd::multiset::Multiset;
use vstd::prelude::*;
use vstd::seq_lib::group_to_multiset_ensures;

verus! {

/// How often the cuts are moved at most.
pub const MAX_ROUNDS: usize = 100;

/// The patterns of a sequence that stand at one place, in their order.
pub open spec fn standing_at(s: Seq<u32>, p: int) -> Seq<u32> {
    s.filter(|x: u32| place(x) == p)
}

/// No number before a smaller one.
pub open spec fn ascending(s: Seq<u32>) -> bool {
    forall|i: int, j: int| 0 <= i <= j < s.len() ==> place(#[trigger] s[i]) <= place(#[trigger] s[j])
}

/// The numbers of a sequence from small to large. Equal ones keep their order.
pub open spec fn is_sorted_from(r: Seq<u32>, s: Seq<u32>) -> bool {
    &&& ascending(r)
    &&& forall|p: int| #[trigger] standing_at(r, p) == standing_at(s, p)
}

/// Sorting has one result.
pub proof fn law_sorting_is_unique(s: Seq<u32>, r: Seq<u32>, t: Seq<u32>)
    requires
        is_sorted_from(r, s),
        is_sorted_from(t, s),
    ensures
        r == t,
    decreases r.len(),
{
    reveal(Seq::filter);
    if r.len() == 0 {
        if t.len() > 0 {
            let p = place(t.last());
            assert(standing_at(t, p).len() > 0);
            assert(standing_at(r, p) == standing_at(s, p));
            assert(standing_at(t, p) == standing_at(s, p));
        }
    } else if t.len() == 0 {
        let p = place(r.last());
        assert(standing_at(r, p).len() > 0);
        assert(standing_at(t, p) == standing_at(s, p));
        assert(standing_at(r, p) == standing_at(s, p));
    } else {
        let p = place(r.last());
        let q = place(t.last());
        assert forall|k: int| #[trigger] standing_at(r, k).len() == standing_at(t, k).len() by {
            assert(standing_at(r, k) == standing_at(s, k));
            assert(standing_at(t, k) == standing_at(s, k));
        }
        lemma_same_last_place(r, t);
        assert(standing_at(r, p) == standing_at(s, p));
        assert(standing_at(t, p) == standing_at(s, p));
        assert(standing_at(r, p).last() == r.last());
        assert(standing_at(t, p).last() == t.last());
        assert forall|k: int| #[trigger] standing_at(r.drop_last(), k) == standing_at(
            t.drop_last(),
            k,
        ) by {
            assert(standing_at(r, k) == standing_at(s, k));
            assert(standing_at(t, k) == standing_at(s, k));
            if k == p {
                assert(standing_at(r, k).drop_last() =~= standing_at(r.drop_last(), k));
                assert(standing_at(t, k).drop_last() =~= standing_at(t.drop_last(), k));
            }
        }
        assert(is_sorted_from(t.drop_last(), t.drop_last()));
        assert(is_sorted_from(r.drop_last(), t.drop_last()));
        law_sorting_is_unique(t.drop_last(), r.drop_last(), t.drop_last());
        assert(r =~= r.drop_last().push(r.last()));
        assert(t =~= t.drop_last().push(t.last()));
    }
}

/// The patterns at one place are those of the whole that stand there.
proof fn lemma_standing_multiset(s: Seq<u32>, p: int)
    ensures
        standing_at(s, p).to_multiset() == s.to_multiset().filter(|x: u32| place(x) == p),
    decreases s.len(),
{
    broadcast use {group_to_multiset_ensures, vstd::multiset::group_multiset_axioms};

    reveal(Seq::filter);
    let at = |x: u32| place(x) == p;
    if s.len() == 0 {
        assert(s.to_multiset() =~= Multiset::empty());
        assert(standing_at(s, p).to_multiset() =~= Multiset::empty());
        assert(s.to_multiset().filter(at) =~= Multiset::empty());
    } else {
        let (before, last) = (s.drop_last(), s.last());
        lemma_standing_multiset(before, p);
        lemma_standing_push(before, last, p);
        assert(before.push(last) =~= s);
        assert(s.to_multiset() =~= before.to_multiset().insert(last));
        assert(s.to_multiset().filter(at) =~= if place(last) == p {
            before.to_multiset().filter(at).insert(last)
        } else {
            before.to_multiset().filter(at)
        });
    }
}

proof fn lemma_same_places(r: Seq<u32>, t: Seq<u32>)
    requires
        ascending(r),
        ascending(t),
        forall|p: int| #[trigger] standing_at(r, p).len() == standing_at(t, p).len(),
    ensures
        r.len() == t.len(),
        forall|i: int| 0 <= i < r.len() ==> place(#[trigger] r[i]) == place(t[i]),
    decreases r.len(),
{
    reveal(Seq::filter);
    if r.len() == 0 {
        if t.len() > 0 {
            let q = place(t.last());
            assert(standing_at(t, q).len() > 0);
            assert(standing_at(r, q).len() == standing_at(t, q).len());
        }
    } else if t.len() == 0 {
        let p = place(r.last());
        assert(standing_at(r, p).len() > 0);
        assert(standing_at(r, p).len() == standing_at(t, p).len());
    } else {
        lemma_same_last_place(r, t);
        let (r1, t1) = (r.drop_last(), t.drop_last());
        assert(r1.push(r.last()) =~= r && t1.push(t.last()) =~= t);
        assert forall|p: int| #[trigger] standing_at(r1, p).len() == standing_at(t1, p).len() by {
            lemma_standing_push(r1, r.last(), p);
            lemma_standing_push(t1, t.last(), p);
            assert(standing_at(r, p).len() == standing_at(t, p).len());
        }
        lemma_same_places(r1, t1);
        assert forall|i: int| 0 <= i < r.len() implies place(#[trigger] r[i]) == place(t[i]) by {
            if i < r.len() - 1 {
                assert(r1[i] == r[i] && t1[i] == t[i]);
            }
        }
    }
}

/// Sorting keeps every number as often as it occurs, and puts none before a smaller one.
pub proof fn law_sorting_rearranges(s: Seq<u32>, r: Seq<u32>, i: int, j: int)
    requires
        is_sorted_from(r, s),
    ensures
        r.to_multiset() == s.to_multiset(),
        0 <= i <= j < r.len() ==> !smaller(r[j], r[i]),
{
    broadcast use vstd::multiset::group_multiset_axioms;

    assert forall|x: u32| #[trigger] r.to_multiset().count(x) == s.to_multiset().count(x) by {
        let p = place(x);
        lemma_standing_multiset(r, p);
        lemma_standing_multiset(s, p);
        assert(standing_at(r, p) == standing_at(s, p));
        let at = |y: u32| place(y) == p;
        assert(r.to_multiset().filter(at).count(x) == r.to_multiset().count(x));
        assert(s.to_multiset().filter(at).count(x) == s.to_multiset().count(x));
    }
    assert(r.to_multiset() =~= s.to_multiset());
}

/// The order in which numbers come is lost when they are sorted: they are the same numbers at the
/// same places. They are the same patterns too, unless a negative zero is among them.
pub proof fn law_sorting_forgets_the_order(a: Seq<u32>, b: Seq<u32>, r: Seq<u32>, t: Seq<u32>)
    requires
        a.to_multiset() == b.to_multiset(),
        is_sorted_from(r, a),
        is_sorted_from(t, b),
    ensures
        same_numbers(r, t),
        (forall|i: int| 0 <= i < a.len() ==> #[trigger] a[i] != SIGN) ==> r == t,
{
    broadcast use group_to_multiset_ensures;

    assert forall|p: int| #[trigger] standing_at(r, p).len() == standing_at(t, p).len() by {
        lemma_standing_multiset(a, p);
        lemma_standing_multiset(b, p);
        assert(standing_at(r, p) == standing_at(a, p));
        assert(standing_at(t, p) == standing_at(b, p));
        assert(standing_at(a, p).to_multiset().len() == standing_at(b, p).to_multiset().len());
    }
    lemma_same_places(r, t);
    if forall|i: int| 0 <= i < a.len() ==> #[trigger] a[i] != SIGN {
        assert(!a.contains(SIGN));
        assert(a.to_multiset().count(SIGN) == 0);
        assert(!b.contains(SIGN));
        lemma_no_pattern_appears(r, a, SIGN);
        lemma_no_pattern_appears(t, b, SIGN);
        assert(r =~= t);
    }
}

/// Sorting brings in no new pattern.
proof fn lemma_no_pattern_appears(r: Seq<u32>, s: Seq<u32>, x: u32)
    requires
        is_sorted_from(r, s),
        !s.contains(x),
    ensures
        forall|i: int| 0 <= i < r.len() ==> #[trigger] r[i] != x,
{
    broadcast use {group_to_multiset_ensures, vstd::multiset::group_multiset_axioms};

    let p = place(x);
    lemma_standing_multiset(r, p);
    lemma_standing_multiset(s, p);
    assert(standing_at(r, p) == standing_at(s, p));
    assert(s.to_multiset().count(x) == 0);
    assert(s.to_multiset().filter(|y: u32| place(y) == p).count(x) == 0);
    assert(r.to_multiset().filter(|y: u32| place(y) == p).count(x) == r.to_multiset().count(x));
    assert(!r.contains(x));
}

proof fn lemma_same_last_place(r: Seq<u32>, t: Seq<u32>)
    requires
        ascending(r),
        ascending(t),
        r.len() > 0,
        t.len() > 0,
        forall|p: int| #[trigger] standing_at(r, p).len() == standing_at(t, p).len(),
    ensures
        place(r.last()) == place(t.last()),
{
    reveal(Seq::filter);
    let p = place(r.last());
    let q = place(t.last());
    assert(standing_at(r, p).len() > 0);
    assert(standing_at(t, q).len() > 0);
    assert(standing_at(r, p).len() == standing_at(t, p).len());
    assert(standing_at(r, q).len() == standing_at(t, q).len());
    if p < q {
        lemma_none_above(r, q);
    }
    if q < p {
        lemma_none_above(t, p);
    }
}

proof fn lemma_none_above(s: Seq<u32>, p: int)
    requires
        forall|i: int| 0 <= i < s.len() ==> place(#[trigger] s[i]) < p,
    ensures
        standing_at(s, p).len() == 0,
    decreases s.len(),
{
    reveal(Seq::filter);
    if s.len() > 0 {
        assert(forall|i: int|
            0 <= i < s.len() - 1 ==> #[trigger] s.drop_last()[i] == s[i]);
        lemma_none_above(s.drop_last(), p);
    }
}

proof fn lemma_standing_push(s: Seq<u32>, x: u32, p: int)
    ensures
        standing_at(s.push(x), p) == if place(x) == p {
            standing_at(s, p).push(x)
        } else {
            standing_at(s, p)
        },
{
    reveal(Seq::filter);
    assert(s.push(x).drop_last() =~= s);
}

/// Merges two sorted sequences; equal numbers of the first come before those of the second.
fn merge(a: &Vec<u32>, b: &Vec<u32>) -> (r: Vec<u32>)
    requires
        ascending(a@),
        ascending(b@),
        forall|i: int| 0 <= i < a@.len() ==> !not_a_number(#[trigger] a@[i]),
        forall|i: int| 0 <= i < b@.len() ==> !not_a_number(#[trigger] b@[i]),
        a@.len() + b@.len() <= usize::MAX,
    ensures
        ascending(r@),
        forall|p: int| #[trigger] standing_at(r@, p) == standing_at(a@, p) + standing_at(b@, p),
        r@.len() == a@.len() + b@.len(),
        forall|i: int| 0 <= i < r@.len() ==> !not_a_number(#[trigger] r@[i]),
{
    let mut r: Vec<u32> = Vec::new();
    let mut i: usize = 0;
    let mut j: usize = 0;
    proof {
        reveal(Seq::filter);
        assert forall|p: int| #[trigger] standing_at(r@, p) =~= standing_at(a@.take(0), p)
            + standing_at(b@.take(0), p) by {}
    }
    while i < a.len() || j < b.len()
        invariant
            ascending(a@),
            ascending(b@),
            forall|k: int| 0 <= k < a@.len() ==> !not_a_number(#[trigger] a@[k]),
            forall|k: int| 0 <= k < b@.len() ==> !not_a_number(#[trigger] b@[k]),
            a@.len() + b@.len() <= usize::MAX,
            i <= a@.len(),
            j <= b@.len(),
            r@.len() == i + j,
            ascending(r@),
            forall|k: int| 0 <= k < r@.len() ==> !not_a_number(#[trigger] r@[k]),
            forall|k: int| 0 <= k < r@.len() && i < a@.len() ==> place(#[trigger] r@[k])
                <= place(a@[i as int]),
            forall|k: int| 0 <= k < r@.len() && j < b@.len() ==> place(#[trigger] r@[k])
                <= place(b@[j as int]),
            forall|k: int| 0 <= k < j && i < a@.len() ==> place(#[trigger] b@[k])
                < place(a@[i as int]),
            forall|p: int| #[trigger] standing_at(r@, p) == standing_at(a@.take(i as int), p)
                + standing_at(b@.take(j as int), p),
        decreases a@.len() - i + b@.len() - j,
    {
        let from_a = if j >= b.len() {
            true
        } else if i >= a.len() {
            false
        } else {
            is_no_larger(a[i], b[j])
        };
        let ghost before = r@;
        if from_a {
            let x: u32 = a[i];
            r.push(x);
            proof {
                assert(a@.take(i + 1) =~= a@.take(i as int).push(x));
                lemma_none_at(b@.take(j as int), place(x));
                assert forall|p: int| #[trigger] standing_at(r@, p) == standing_at(
                    a@.take(i + 1),
                    p,
                ) + standing_at(b@.take(j as int), p) by {
                    lemma_standing_push(before, x, p);
                    lemma_standing_push(a@.take(i as int), x, p);
                    assert(standing_at(before, p) == standing_at(a@.take(i as int), p)
                        + standing_at(b@.take(j as int), p));
                    if place(x) == p {
                        assert(standing_at(r@, p) =~= standing_at(a@.take(i + 1), p)
                            + standing_at(b@.take(j as int), p));
                    }
                }
            }
            i = i + 1;
        } else {
            let x: u32 = b[j];
            r.push(x);
            proof {
                assert(b@.take(j + 1) =~= b@.take(j as int).push(x));
                assert forall|p: int| #[trigger] standing_at(r@, p) == standing_at(
                    a@.take(i as int),
                    p,
                ) + standing_at(b@.take(j + 1), p) by {
                    lemma_standing_push(before, x, p);
                    lemma_standing_push(b@.take(j as int), x, p);
                    assert(standing_at(before, p) == standing_at(a@.take(i as int), p)
                        + standing_at(b@.take(j as int), p));
                    if place(x) == p {
                        assert(standing_at(r@, p) =~= standing_at(a@.take(i as int), p)
                            + standing_at(b@.take(j + 1), p));
                    }
                }
            }
            j = j + 1;
        }
    }
    assert(a@.take(i as int) =~= a@);
    assert(b@.take(j as int) =~= b@);
    r
}

proof fn lemma_none_at(s: Seq<u32>, p: int)
    requires
        forall|i: int| 0 <= i < s.len() ==> place(#[trigger] s[i]) != p,
    ensures
        standing_at(s, p) == Seq::<u32>::empty(),
    decreases s.len(),
{
    reveal(Seq::filter);
    if s.len() > 0 {
        assert(forall|i: int|
            0 <= i < s.len() - 1 ==> #[trigger] s.drop_last()[i] == s[i]);
        lemma_none_at(s.drop_last(), p);
    }
    assert(standing_at(s, p) =~= Seq::<u32>::empty());
}

/// Sorts the numbers from `from` up to, not including, `to`.
fn sort_part(a: &[u32], from: usize, to: usize) -> (r: Vec<u32>)
    requires
        from <= to <= a@.len(),
        forall|i: int| 0 <= i < a@.len() ==> !not_a_number(#[trigger] a@[i]),
    ensures
        is_sorted_from(r@, a@.subrange(from as int, to as int)),
        r@.len() == to - from,
        forall|i: int| 0 <= i < r@.len() ==> !not_a_number(#[trigger] r@[i]),
    decreases to - from,
{
    if to - from <= 1 {
        let mut r: Vec<u32> = Vec::new();
        if from < to {
            r.push(a[from]);
        }
        assert(r@ =~= a@.subrange(from as int, to as int));
        return r;
    }
    let mid: usize = from + (to - from) / 2;
    let low = sort_part(a, from, mid);
    let high = sort_part(a, mid, to);
    let r = merge(&low, &high);
    proof {
        let all = a@.subrange(from as int, to as int);
        let first = a@.subrange(from as int, mid as int);
        let second = a@.subrange(mid as int, to as int);
        assert(all =~= first + second);
        assert forall|p: int| #[trigger] standing_at(r@, p) == standing_at(all, p) by {
            Seq::filter_distributes_over_add(first, second, |x: u32| place(x) == p);
            assert(standing_at(low@, p) == standing_at(first, p));
            assert(standing_at(high@, p) == standing_at(second, p));
        }
    }
    r
}

/// The numbers from small to large. Equal ones keep their order.
pub fn sort_numbers(a: &[u32]) -> (r: Vec<u32>)
    requires
        forall|i: int| 0 <= i < a@.len() ==> !not_a_number(#[trigger] a@[i]),
    ensures
        is_sorted_from(r@, a@),
        r@.len() == a@.len(),
{
    let r = sort_part(a, 0, a.len());
    assert(a@.subrange(0, a@.len() as int) =~= a@);
    r
}

/// The cheapest of some cuts, the first one among equals. A cut of infinite cost, or whose
/// cost is no number, is not made.
pub open spec fn is_cheapest(costs: Seq<u32>, k: int) -> bool {
    &&& 0 <= k < costs.len()
    &&& smaller(costs[k], INFINITY)
    &&& forall|m: int| 0 <= m < costs.len() ==> !smaller(#[trigger] costs[m], costs[k])
    &&& forall|m: int| 0 <= m < k ==> !no_larger(#[trigger] costs[m], costs[k])
}

/// Some cut can be made.
pub open spec fn has_finite(costs: Seq<u32>) -> bool {
    exists|k: int| 0 <= k < costs.len() && smaller(#[trigger] costs[k], INFINITY)
}

/// Where a cut between `left` and `right` is moved to. The first cost is that of a cut right
/// behind `left`. The cut stays where it is if none can be made.
pub open spec fn best_cut(left: int, current: int, costs: Seq<u32>) -> int {
    if has_finite(costs) {
        left + 1 + choose|k: int| is_cheapest(costs, k)
    } else {
        current
    }
}

/// There is one cheapest cut.
pub proof fn law_cheapest_is_unique(costs: Seq<u32>, j: int, k: int)
    requires
        is_cheapest(costs, j),
        is_cheapest(costs, k),
    ensures
        j == k,
{
    if j < k {
        assert(!no_larger(costs[j], costs[k]));
        assert(!smaller(costs[k], costs[j]));
    }
    if k < j {
        assert(!no_larger(costs[k], costs[j]));
        assert(!smaller(costs[j], costs[k]));
    }
}

/// The cheapest place for a cut.
pub fn find_best_cut(left: usize, current: usize, costs: &[u32]) -> (r: usize)
    requires
        left + costs@.len() < usize::MAX,
    ensures
        r == best_cut(left as int, current as int, costs@),
        has_finite(costs@) ==> left < r <= left + costs@.len(),
{
    let mut best_cost: u32 = INFINITY;
    let mut best: usize = 0;
    let mut found = false;
    for k in 0..costs.len()
        invariant
            !found ==> best_cost == INFINITY && forall|m: int|
                0 <= m < k ==> !smaller(#[trigger] costs@[m], INFINITY),
            found ==> {
                &&& best < k
                &&& best_cost == costs@[best as int]
                &&& is_cheapest(costs@.take(k as int), best as int)
            },
    {
        let cost: u32 = costs[k];
        let ghost before = costs@.take(k as int);
        let ghost after = costs@.take(k + 1);
        if is_smaller(cost, best_cost) {
            proof {
                assert(smaller(cost, INFINITY));
                assert forall|m: int| 0 <= m < after.len() implies !smaller(
                    #[trigger] after[m],
                    cost,
                ) && (m < k ==> !no_larger(after[m], cost)) by {
                    if m < k {
                        assert(after[m] == before[m]);
                        assert(after[m] == costs@[m]);
                    }
                }
                assert(after[k as int] == cost);
            }
            best_cost = cost;
            best = k;
            found = true;
        } else {
            proof {
                if found {
                    assert forall|m: int| 0 <= m < after.len() implies !smaller(
                        #[trigger] after[m],
                        best_cost,
                    ) by {
                        if m < k {
                            assert(after[m] == before[m]);
                        }
                    }
                    assert forall|m: int| 0 <= m < best implies !no_larger(
                        #[trigger] after[m],
                        best_cost,
                    ) by {
                        assert(after[m] == before[m]);
                    }
                    assert(after[best as int] == before[best as int]);
                }
            }
        }
    }
    assert(costs@.take(costs@.len() as int) =~= costs@);
    if found {
        proof {
            let k = choose|k: int| is_cheapest(costs@, k);
            law_cheapest_is_unique(costs@, best as int, k);
        }
        left + 1 + best
    } else {
        current
    }
}

/// Where `n` sorted numbers are cut into `c` runs: run `i` reaches from one bound to the next.
pub struct Boundaries {
    pub bounds: Vec<usize>,
}

/// Bounds of `c` runs of `n` numbers.
pub open spec fn bounds_of(b: Seq<usize>, c: int, n: int) -> bool {
    &&& 0 < c < n
    &&& b.len() == c + 1
    &&& b[0] == 0
    &&& b[c] == n
    &&& forall|i: int| 0 < i < c ==> 0 < #[trigger] b[i] < n
}

/// Each cut can be moved between its neighbors: they are not out of order.
pub open spec fn movable(b: Seq<usize>) -> bool {
    forall|i: int, j: int|
        0 <= i && j == i + 2 && j < b.len() ==> #[trigger] b[i] <= #[trigger] b[j]
}

/// Between the neighbors of each cut there is a place for it.
pub open spec fn wide(b: Seq<usize>) -> bool {
    forall|i: int, j: int|
        0 <= i && j == i + 2 && j < b.len() ==> #[trigger] b[i] + 2 <= #[trigger] b[j]
}

/// There are costs for every place to which a cut can be moved. The first costs are those of
/// the first cut, which lies between the first run and the second.
pub open spec fn costs_fit(b: Seq<usize>, costs: Seq<Vec<u32>>) -> bool {
    &&& costs.len() == b.len() - 2
    &&& forall|k: int|
        0 <= k < costs.len() && b[k + 2] - b[k] > 1 ==> (#[trigger] costs[k])@.len() == b[k + 2]
            - b[k] - 1
}

/// Where a cut is moved to, given its costs.
pub open spec fn moved_cut(b: Seq<usize>, costs: Seq<u32>, i: int) -> int {
    if b[i + 1] - b[i - 1] <= 1 {
        b[i] as int
    } else {
        best_cut(b[i - 1] as int, b[i] as int, costs)
    }
}

/// All cuts after they have been moved at the same time.
pub open spec fn moved(b: Seq<usize>, costs: Seq<Vec<u32>>) -> Seq<usize> {
    Seq::new(
        b.len(),
        |i: int|
            if 0 < i < b.len() - 1 {
                moved_cut(b, costs[i - 1]@, i) as usize
            } else {
                b[i]
            },
    )
}

/// Where run `i` starts if the runs have equal length and the last takes what is left.
pub open spec fn even_bound(c: int, n: int, i: int) -> int {
    if i == c {
        n
    } else {
        i * (n / c)
    }
}

/// Runs of equal length, the last of which takes what is left.
pub open spec fn even_bounds(c: int, n: int) -> Seq<usize> {
    Seq::new((c + 1) as nat, |i: int| even_bound(c, n, i) as usize)
}

proof fn lemma_even_bound(c: int, n: int, i: int)
    requires
        0 < c < n,
        0 <= i <= c,
    ensures
        0 <= even_bound(c, n, i) <= n,
        i == 0 ==> even_bound(c, n, i) == 0,
        0 < i ==> even_bound(c, n, i) >= 1,
        i < c ==> even_bound(c, n, i) < n,
        i < c ==> even_bound(c, n, i) == i * (n / c),
        i + 2 <= c ==> even_bound(c, n, i) + 2 <= even_bound(c, n, i + 2),
{
    let w = n / c;
    assert(1 <= w && c * w <= n) by (nonlinear_arith)
        requires
            w == n / c,
            0 < c < n,
    ;
    assert(0 <= i * w <= c * w) by (nonlinear_arith)
        requires
            0 <= i <= c,
            1 <= w,
    ;
    assert(0 * w == 0);
    if 0 < i {
        assert(i * w >= 1) by (nonlinear_arith)
            requires
                i >= 1,
                w >= 1,
        ;
    }
    if i < c {
        assert(i * w + w <= c * w) by (nonlinear_arith)
            requires
                i + 1 <= c,
                w >= 1,
        ;
    }
    if i + 2 <= c {
        assert(i * w + 2 * w == (i + 2) * w && (i + 2) * w <= c * w) by (nonlinear_arith)
            requires
                i + 2 <= c,
                w >= 1,
        ;
    }
}

impl Boundaries {
    /// Cuts `n` numbers into `c` runs of equal length.
    pub fn new(c: usize, n: usize) -> (r: Boundaries)
        requires
            0 < c < n,
        ensures
            r.bounds@ == even_bounds(c as int, n as int),
            bounds_of(r.bounds@, c as int, n as int),
            wide(r.bounds@),
            movable(r.bounds@),
    {
        let mut bounds: Vec<usize> = Vec::new();
        let chunk_size: usize = n / c;
        for i in 0..c
            invariant
                0 < c < n,
                chunk_size == n / c,
                bounds@.len() == i,
                forall|k: int|
                    0 <= k < i ==> #[trigger] bounds@[k] == even_bound(c as int, n as int, k),
        {
            proof {
                lemma_even_bound(c as int, n as int, i as int);
            }
            bounds.push(i * chunk_size);
        }
        bounds.push(n);
        proof {
            law_even_bounds_are_wide(c as int, n as int);
            assert(bounds@ =~= even_bounds(c as int, n as int));
        }
        Boundaries { bounds }
    }

    /// Whether the cuts can be moved.
    pub fn can_advance(&self) -> (r: bool)
        requires
            self.bounds@.len() >= 2,
        ensures
            r == movable(self.bounds@),
    {
        for i in 1..self.bounds.len() - 1
            invariant
                self.bounds@.len() >= 2,
                forall|k: int, l: int|
                    0 <= k && l == k + 2 && l <= i ==> #[trigger] self.bounds@[k]
                        <= #[trigger] self.bounds@[l],
        {
            if self.bounds[i - 1] > self.bounds[i + 1] {
                assert(self.bounds@[i - 1] > self.bounds@[i + 1]);
                return false;
            }
        }
        true
    }

    /// Between which places a cut can be moved.
    pub fn neighbors(&self, i: usize) -> (r: (usize, usize))
        requires
            0 < i < self.bounds@.len() - 1,
        ensures
            r == (self.bounds@[i - 1], self.bounds@[i + 1]),
    {
        assert(self.bounds.len() <= usize::MAX);
        (self.bounds[i - 1], self.bounds[i + 1])
    }

    /// Moves every cut to its cheapest place, and tells whether all of them stayed where they
    /// were.
    pub fn advance(&mut self, costs: &[Vec<u32>]) -> (r: bool)
        requires
            old(self).bounds@.len() >= 2,
            movable(old(self).bounds@),
            costs_fit(old(self).bounds@, costs@),
        ensures
            final(self).bounds@ == moved(old(self).bounds@, costs@),
            r == (final(self).bounds@ == old(self).bounds@),
    {
        let n: usize = self.bounds.len();
        let ghost b = self.bounds@;
        let mut new_bounds: Vec<usize> = Vec::new();
        let mut same = true;
        new_bounds.push(self.bounds[0]);
        assert(new_bounds@ =~= b.take(1));
        assert(new_bounds@ =~= moved(b, costs@).take(1));
        for i in 1..n - 1
            invariant
                n == b.len(),
                n >= 2,
                1 <= i <= n - 1,
                b == self.bounds@,
                movable(b),
                costs_fit(b, costs@),
                new_bounds@ == moved(b, costs@).take(i as int),
                same == (new_bounds@ == b.take(i as int)),
        {
            let left: usize = self.bounds[i - 1];
            let right: usize = self.bounds[i + 1];
            assert(b[i - 1] <= b[i + 1]);
            let current: usize = self.bounds[i];
            let place: usize = if right - left <= 1 {
                current
            } else {
                assert(costs@[i - 1]@.len() == b[i - 1 + 2] - b[i - 1] - 1);
                find_best_cut(left, current, costs[i - 1].as_slice())
            };
            new_bounds.push(place);
            assert(moved(b, costs@).take(i + 1) =~= moved(b, costs@).take(i as int).push(place));
            proof {
                if same && place == current {
                    assert(b.take(i + 1) =~= b.take(i as int).push(place));
                } else if new_bounds@ == b.take(i + 1) {
                    assert(new_bounds@.drop_last() =~= b.take(i as int));
                    assert(new_bounds@.last() == b[i as int]);
                    assert(moved(b, costs@).take(i as int) =~= new_bounds@.drop_last());
                }
            }
            same = same && place == current;
        }
        new_bounds.push(self.bounds[n - 1]);
        proof {
            assert(moved(b, costs@) =~= moved(b, costs@).take(n - 1).push(b[n - 1]));
            if same {
                assert(b =~= b.take(n - 1).push(b[n - 1]));
            } else if new_bounds@ == b {
                assert(new_bounds@.take(n - 1) =~= b.take(n - 1));
                assert(new_bounds@.take(n - 1) =~= moved(b, costs@).take(n - 1));
            }
        }
        self.bounds = new_bounds;
        same
    }

    /// The runs, each from its first number up to, not including, its last bound. Where a run
    /// is empty its first number alone stands for it.
    pub fn runs(&self) -> (r: Vec<(usize, usize)>)
        requires
            self.bounds@.len() >= 1,
        ensures
            r@ == Seq::new(
                (self.bounds@.len() - 1) as nat,
                |i: int| (self.bounds@[i], self.bounds@[i + 1]),
            ),
    {
        let mut r: Vec<(usize, usize)> = Vec::new();
        for i in 0..self.bounds.len() - 1
            invariant
                self.bounds@.len() >= 1,
                r@ == Seq::new(
                    i as nat,
                    |k: int| (self.bounds@[k], self.bounds@[k + 1]),
                ),
        {
            r.push((self.bounds[i], self.bounds[i + 1]));
            assert(r@ =~= Seq::new(
                (i + 1) as nat,
                |k: int| (self.bounds@[k], self.bounds@[k + 1]),
            ));
        }
        r
    }
}

/// The first cuts leave room on both sides of each.
pub proof fn law_even_bounds_are_wide(c: int, n: int)
    requires
        0 < c < n <= usize::MAX,
    ensures
        bounds_of(even_bounds(c, n), c, n),
        wide(even_bounds(c, n)),
        movable(even_bounds(c, n)),
{
    let b = even_bounds(c, n);
    assert forall|i: int| 0 <= i <= c implies #[trigger] b[i] == even_bound(c, n, i) && (0 < i < c
        ==> 0 < b[i] < n) by {
        lemma_even_bound(c, n, i);
    }
    lemma_even_bound(c, n, 0);
    assert forall|i: int, j: int| 0 <= i && j == i + 2 && j < b.len() implies #[trigger] b[i] + 2
        <= #[trigger] b[j] by {
        lemma_even_bound(c, n, i);
    }
}

proof fn lemma_best_cut_between(left: int, current: int, costs: Seq<u32>)
    requires
        has_finite(costs),
    ensures
        left < best_cut(left, current, costs) <= left + costs.len(),
{
    lemma_cheapest_exists(costs);
}

proof fn lemma_cheapest_exists(costs: Seq<u32>)
    requires
        has_finite(costs),
    ensures
        exists|k: int| is_cheapest(costs, k),
    decreases costs.len(),
{
    let before = costs.drop_last();
    let last = costs.len() - 1;
    if has_finite(before) {
        lemma_cheapest_exists(before);
        let k = choose|k: int| is_cheapest(before, k);
        let best = if smaller(costs[last], costs[k]) {
            last
        } else {
            k
        };
        assert forall|m: int| 0 <= m < costs.len() implies !smaller(
            #[trigger] costs[m],
            costs[best],
        ) && (m < best ==> !no_larger(costs[m], costs[best])) by {
            if m < last {
                assert(before[m] == costs[m]);
            }
        }
        assert(is_cheapest(costs, best));
    } else {
        let k = choose|k: int| 0 <= k < costs.len() && smaller(#[trigger] costs[k], INFINITY);
        if k < last {
            assert(before[k] == costs[k]);
        }
        assert forall|m: int| 0 <= m < costs.len() implies !smaller(
            #[trigger] costs[m],
            costs[last],
        ) && (m < last ==> !no_larger(costs[m], costs[last])) by {
            if m < last {
                assert(before[m] == costs[m]);
            }
        }
        assert(is_cheapest(costs, last));
    }
}

/// At first all runs but the last have one length, the greatest that leaves every run as many.
pub proof fn law_first_runs_have_one_length(c: int, n: int, i: int)
    requires
        0 < c < n <= usize::MAX,
        0 <= i < c,
    ensures
        ({
            let b = even_bounds(c, n);
            let length = if c == 1 {
                n
            } else {
                b[1] as int
            };
            &&& b.len() == c + 1
            &&& b[0] == 0
            &&& b[c] == n
            &&& c * length <= n < c * (length + 1)
            &&& i + 1 < c ==> b[i + 1] - b[i] == length
        }),
{
    let length = n / c;
    assert(c * length <= n < c * (length + 1)) by (nonlinear_arith)
        requires
            length == n / c,
            c > 0,
    ;
    assert(c == 1 ==> length == n) by (nonlinear_arith)
        requires
            length == n / c,
    ;
    lemma_even_bound(c, n, 0);
    lemma_even_bound(c, n, 1);
    lemma_even_bound(c, n, i);
    lemma_even_bound(c, n, i + 1);
    assert(1 * length == length);
    assert((i + 1) * length == i * length + length) by (nonlinear_arith);
}

/// A cut moves to the first of the cheapest places between its neighbors: no other place costs
/// less, and every place before it costs more or has no number for its cost. Where there is no
/// room, or no place of finite cost, it stays, and so do both ends.
pub proof fn law_cuts_move_to_the_cheapest_place(
    b: Seq<usize>,
    costs: Seq<Vec<u32>>,
    i: int,
    m: int,
)
    requires
        b.len() >= 2,
        costs_fit(b, costs),
        0 < i < b.len() - 1,
        0 <= m < costs[i - 1]@.len(),
        b[i + 1] - b[i - 1] > 1,
    ensures
        ({
            let row = costs[i - 1]@;
            let to = moved(b, costs)[i] as int;
            let k = to - b[i - 1] - 1;
            &&& has_finite(row) ==> {
                &&& b[i - 1] < to < b[i + 1]
                &&& smaller(row[k], 0x7F80_0000)
                &&& !smaller(row[m], row[k])
                &&& m < k ==> !no_larger(row[m], row[k])
            }
            &&& (forall|j: int| 0 <= j < row.len() ==> !smaller(#[trigger] row[j], 0x7F80_0000))
                ==> to == b[i]
        }),
{
    let row = costs[i - 1]@;
    assert(row.len() == b[i + 1] - b[i - 1] - 1);
    if has_finite(row) {
        lemma_cheapest_exists(row);
        let k = choose|k: int| is_cheapest(row, k);
        assert(is_cheapest(row, k));
    }
}

/// The ends, and a cut without room, stay where they are.
pub proof fn law_cuts_without_room_stay(b: Seq<usize>, costs: Seq<Vec<u32>>, i: int)
    requires
        b.len() >= 2,
        0 <= i < b.len(),
        i == 0 || i == b.len() - 1 || b[i + 1] - b[i - 1] <= 1,
    ensures
        moved(b, costs).len() == b.len(),
        moved(b, costs)[i] == b[i],
{
}

/// As long as every cut has a place of finite cost, the cuts stay among the numbers and never
/// get out of order so far that they could not be moved again.
pub proof fn law_cuts_stay_movable(b: Seq<usize>, costs: Seq<Vec<u32>>, c: int, n: int)
    requires
        bounds_of(b, c, n),
        wide(b),
        costs_fit(b, costs),
        n <= usize::MAX,
        forall|i: int| 0 <= i < costs.len() ==> has_finite((#[trigger] costs[i])@),
    ensures
        bounds_of(moved(b, costs), c, n),
        wide(moved(b, costs)),
        movable(moved(b, costs)),
{
    let m = moved(b, costs);
    assert forall|i: int| 0 < i < c implies b[i - 1] < #[trigger] m[i] < b[i + 1] by {
        assert(b[i - 1] + 2 <= b[i + 1]);
        assert(costs[i - 1]@.len() == b[i - 1 + 2] - b[i - 1] - 1);
        lemma_best_cut_between(b[i - 1] as int, b[i] as int, costs[i - 1]@);
    }
    assert forall|i: int| 0 < i < c implies 0 < #[trigger] m[i] < n by {
        assert(b[i - 1] < m[i] < b[i + 1]);
        if i + 1 < c {
            assert(b[i + 1] < n);
        }
    }
    assert forall|i: int, j: int| 0 <= i && j == i + 2 && j < m.len() implies #[trigger] m[i] + 2
        <= #[trigger] m[j] by {
        assert(0 < b[i + 1] < n);
        if i > 0 {
            assert(m[i] < b[i + 1]);
        }
        if j < c {
            assert(b[j - 1] < m[j]);
        }
    }
}

/// `row` holds what it costs to cut the numbers from `left` up to `right` in two, at each
/// place between them.
pub open spec fn row_from<F: Fn(&Vec<u32>, usize, usize, usize) -> u32>(
    cost: F,
    sorted: Vec<u32>,
    left: usize,
    right: usize,
    row: Seq<u32>,
) -> bool {
    &&& left + 1 + row.len() <= right || row.len() == 0
    &&& forall|m: int|
        0 <= m < row.len() ==> call_ensures(
            cost,
            (&sorted, left, (left + 1 + m) as usize, right),
            #[trigger] row[m],
        )
}

/// `costs` holds what the places of each cut cost.
pub open spec fn costs_from<F: Fn(&Vec<u32>, usize, usize, usize) -> u32>(
    cost: F,
    sorted: Vec<u32>,
    b: Seq<usize>,
    costs: Seq<Vec<u32>>,
) -> bool {
    &&& costs_fit(b, costs)
    &&& forall|k: int|
        0 <= k < costs.len() ==> row_from(cost, sorted, b[k], b[k + 2], (#[trigger] costs[k])@)
}

/// One round moves the cuts from `b` to `next`.
pub open spec fn is_round<F: Fn(&Vec<u32>, usize, usize, usize) -> u32>(
    cost: F,
    sorted: Vec<u32>,
    b: Seq<usize>,
    next: Seq<usize>,
) -> bool {
    &&& movable(b)
    &&& exists|costs: Seq<Vec<u32>>| #[trigger]
        costs_from(cost, sorted, b, costs) && next == moved(b, costs)
}

/// In a round a cut with room goes by what `cost` says of each place between its neighbors: it
/// moves to the first of the cheapest, and stays where it is if none has a finite cost.
pub proof fn law_round_goes_by_the_costs<F: Fn(&Vec<u32>, usize, usize, usize) -> u32>(
    cost: F,
    sorted: Vec<u32>,
    b: Seq<usize>,
    next: Seq<usize>,
    i: int,
)
    requires
        is_round(cost, sorted, b, next),
        b.len() >= 2,
        0 < i < b.len() - 1,
        b[i + 1] - b[i - 1] > 1,
    ensures
        next.len() == b.len(),
        exists|row: Seq<u32>|
            {
                let k = next[i] - b[i - 1] - 1;
                &&& #[trigger] row.len() == b[i + 1] - b[i - 1] - 1
                &&& forall|m: int|
                    0 <= m < row.len() ==> call_ensures(
                        cost,
                        (&sorted, b[i - 1], (b[i - 1] + 1 + m) as usize, b[i + 1]),
                        #[trigger] row[m],
                    )
                &&& (exists|m: int| 0 <= m < row.len() && smaller(#[trigger] row[m], 0x7F80_0000))
                    ==> {
                    &&& 0 <= k < row.len()
                    &&& smaller(row[k], 0x7F80_0000)
                    &&& forall|m: int| 0 <= m < row.len() ==> !smaller(#[trigger] row[m], row[k])
                    &&& forall|m: int| 0 <= m < k ==> !no_larger(#[trigger] row[m], row[k])
                }
                &&& (forall|m: int| 0 <= m < row.len() ==> !smaller(#[trigger] row[m], 0x7F80_0000))
                    ==> next[i] == b[i]
            },
{
    let costs = choose|costs: Seq<Vec<u32>>| #[trigger]
        costs_from(cost, sorted, b, costs) && next == moved(b, costs);
    let row = costs[i - 1]@;
    assert(row_from(cost, sorted, b[i - 1], b[i + 1], costs[i - 1]@));
    assert(row.len() == b[i + 1] - b[i - 1] - 1);
    if has_finite(row) {
        lemma_cheapest_exists(row);
        let k = choose|k: int| is_cheapest(row, k);
        assert(is_cheapest(row, k));
    }
}

/// The cuts of every round, from the first even ones on. In every round but the last they could
/// be moved.
pub open spec fn is_history<F: Fn(&Vec<u32>, usize, usize, usize) -> u32>(
    cost: F,
    sorted: Vec<u32>,
    c: int,
    history: Seq<Seq<usize>>,
) -> bool {
    &&& 0 < history.len() <= MAX_ROUNDS + 1
    &&& history[0] == even_bounds(c, sorted@.len() as int)
    &&& forall|k: int, l: int|
        0 <= k && l == k + 1 && l < history.len() ==> is_round(
            cost,
            sorted,
            #[trigger] history[k],
            #[trigger] history[l],
        )
}

/// The cuts have settled: they stayed where they were in the last round, or there were as many
/// rounds as are made at most.
pub open spec fn is_settled(history: Seq<Seq<usize>>) -> bool {
    ||| history.len() == MAX_ROUNDS + 1
    ||| history.len() > 1 && history[history.len() - 1] == history[history.len() - 2]
}

/// Cuts that have settled before the last round stay where they are in another round; else a
/// hundred rounds were made.
pub proof fn law_settled_cuts_stay<F: Fn(&Vec<u32>, usize, usize, usize) -> u32>(
    cost: F,
    sorted: Vec<u32>,
    c: int,
    history: Seq<Seq<usize>>,
)
    requires
        is_history(cost, sorted, c, history),
        is_settled(history),
    ensures
        history.len() <= 101,
        history.len() < 101 ==> is_round(cost, sorted, history.last(), history.last()),
{
    if history.len() < 101 {
        let l = history.len() - 1;
        assert(is_round(cost, sorted, history[l - 1], history[l]));
    }
}

/// The cuts cannot be moved, although there are rounds left.
pub open spec fn is_stuck(history: Seq<Seq<usize>>) -> bool {
    history.len() <= MAX_ROUNDS && !movable(history.last())
}

/// Cuts are stuck only where the neighbors of one of them are out of order, before the hundredth
/// round.
pub proof fn law_stuck_cuts_are_out_of_order(history: Seq<Seq<usize>>)
    requires
        history.len() > 0,
        is_stuck(history),
    ensures
        history.len() <= 100,
        exists|i: int, j: int|
            0 <= i && j == i + 2 && j < history.last().len() && #[trigger] history.last()[i]
                > #[trigger] history.last()[j],
{
}

/// What comes of cutting sorted numbers into `c` runs: cuts that have settled, or none if they
/// got stuck.
pub open spec fn is_outcome<F: Fn(&Vec<u32>, usize, usize, usize) -> u32>(
    cost: F,
    sorted: Vec<u32>,
    c: int,
    r: Option<Seq<usize>>,
) -> bool {
    exists|history: Seq<Seq<usize>>| #[trigger]
        is_history(cost, sorted, c, history) && match r {
            Some(cuts) => is_settled(history) && history.last() == cuts,
            None => is_stuck(history),
        }
}

/// The same numbers stand at the same places.
pub open spec fn same_numbers(s: Seq<u32>, t: Seq<u32>) -> bool {
    &&& s.len() == t.len()
    &&& forall|i: int| 0 <= i < s.len() ==> place(#[trigger] s[i]) == place(t[i])
}

/// Cuts of two sequences cost the same.
pub open spec fn costs_agree<F: Fn(&Vec<u32>, usize, usize, usize) -> u32>(
    cost: F,
    s: Vec<u32>,
    t: Vec<u32>,
) -> bool {
    forall|l: usize, j: usize, r: usize, x: u32, y: u32| #[trigger]
        call_ensures(cost, (&s, l, j, r), x) && #[trigger] call_ensures(cost, (&t, l, j, r), y)
            ==> x == y
}

proof fn lemma_rounds_agree<F: Fn(&Vec<u32>, usize, usize, usize) -> u32>(
    cost: F,
    s: Vec<u32>,
    t: Vec<u32>,
    b: Seq<usize>,
    next: Seq<usize>,
    following: Seq<usize>,
)
    requires
        costs_agree(cost, s, t),
        is_round(cost, s, b, next),
        is_round(cost, t, b, following),
    ensures
        next == following,
{
    let x = choose|x: Seq<Vec<u32>>| #[trigger] costs_from(cost, s, b, x) && next == moved(b, x);
    let y = choose|y: Seq<Vec<u32>>| #[trigger]
        costs_from(cost, t, b, y) && following == moved(b, y);
    assert forall|i: int| 0 <= i < b.len() implies #[trigger] moved(b, x)[i] == moved(b, y)[i] by {
        if 0 < i < b.len() - 1 && b[i + 1] - b[i - 1] > 1 {
            let k = i - 1;
            assert(x[k]@.len() == b[k + 2] - b[k] - 1 && y[k]@.len() == b[k + 2] - b[k] - 1);
            assert(row_from(cost, s, b[k], b[k + 2], x[k]@));
            assert(row_from(cost, t, b[k], b[k + 2], y[k]@));
            assert forall|m: int| 0 <= m < x[k]@.len() implies #[trigger] x[k]@[m] == y[k]@[m] by {
                let j = (b[k] + 1 + m) as usize;
                assert(call_ensures(cost, (&s, b[k], j, b[k + 2]), x[k]@[m]));
                assert(call_ensures(cost, (&t, b[k], j, b[k + 2]), y[k]@[m]));
            }
            assert(x[k]@ =~= y[k]@);
        }
    }
    assert(next =~= following);
}

/// Two histories go the same way, as long as both go on.
proof fn lemma_histories_agree<F: Fn(&Vec<u32>, usize, usize, usize) -> u32>(
    cost: F,
    s: Vec<u32>,
    t: Vec<u32>,
    c: int,
    history: Seq<Seq<usize>>,
    another: Seq<Seq<usize>>,
    k: int,
)
    requires
        costs_agree(cost, s, t),
        s@.len() == t@.len(),
        is_history(cost, s, c, history),
        is_history(cost, t, c, another),
        0 <= k < history.len(),
        k < another.len(),
    ensures
        history[k] == another[k],
    decreases k,
{
    if k > 0 {
        lemma_histories_agree(cost, s, t, c, history, another, k - 1);
        assert(is_round(cost, s, history[k - 1], history[k]));
        assert(is_round(cost, t, another[k - 1], another[k]));
        lemma_rounds_agree(cost, s, t, history[k - 1], history[k], another[k]);
    }
}

/// A history that goes on after another has come to rest stays where that one is.
proof fn lemma_rest_stays<F: Fn(&Vec<u32>, usize, usize, usize) -> u32>(
    cost: F,
    s: Vec<u32>,
    t: Vec<u32>,
    c: int,
    history: Seq<Seq<usize>>,
    longer: Seq<Seq<usize>>,
    k: int,
)
    requires
        costs_agree(cost, s, t),
        s@.len() == t@.len(),
        is_history(cost, s, c, history),
        is_history(cost, t, c, longer),
        is_settled(history),
        history.len() < longer.len(),
        history.len() - 1 <= k < longer.len(),
    ensures
        longer[k] == history.last(),
    decreases k,
{
    let last = history.len() - 1;
    lemma_histories_agree(cost, s, t, c, history, longer, last);
    if k > last {
        lemma_rest_stays(cost, s, t, c, history, longer, k - 1);
        assert(is_round(cost, s, history[last - 1], history[last]));
        assert(is_round(cost, t, longer[k - 1], longer[k]));
        lemma_rounds_agree(cost, s, t, history[last], history[last], longer[k]);
    }
}

/// What comes of cutting numbers is determined by what the cuts cost: if costs are the same, so
/// are the cuts, and nothing comes out of the one where nothing comes out of the other.
pub proof fn law_costs_determine_the_cuts<F: Fn(&Vec<u32>, usize, usize, usize) -> u32>(
    cost: F,
    s: Vec<u32>,
    t: Vec<u32>,
    c: int,
    r: Option<Seq<usize>>,
    q: Option<Seq<usize>>,
)
    requires
        costs_agree(cost, s, t),
        s@.len() == t@.len(),
        is_outcome(cost, s, c, r),
        is_outcome(cost, t, c, q),
    ensures
        r == q,
{
    let history = choose|history: Seq<Seq<usize>>| #[trigger]
        is_history(cost, s, c, history) && match r {
            Some(cuts) => is_settled(history) && history.last() == cuts,
            None => is_stuck(history),
        };
    let another = choose|another: Seq<Seq<usize>>| #[trigger]
        is_history(cost, t, c, another) && match q {
            Some(cuts) => is_settled(another) && another.last() == cuts,
            None => is_stuck(another),
        };
    assert(costs_agree(cost, t, s));
    if history.len() <= another.len() {
        lemma_ends_agree(cost, s, t, c, history, another);
    } else {
        lemma_ends_agree(cost, t, s, c, another, history);
    }
}

proof fn lemma_ends_agree<F: Fn(&Vec<u32>, usize, usize, usize) -> u32>(
    cost: F,
    s: Vec<u32>,
    t: Vec<u32>,
    c: int,
    history: Seq<Seq<usize>>,
    longer: Seq<Seq<usize>>,
)
    requires
        costs_agree(cost, s, t),
        s@.len() == t@.len(),
        is_history(cost, s, c, history),
        is_history(cost, t, c, longer),
        is_settled(history) || is_stuck(history),
        is_settled(longer) || is_stuck(longer),
        history.len() <= longer.len(),
    ensures
        history.last() == longer.last(),
        is_stuck(history) ==> !is_settled(longer),
        is_stuck(longer) ==> !is_settled(history),
{
    let (m, n) = (history.len() as int, longer.len() as int);
    lemma_histories_agree(cost, s, t, c, history, longer, m - 1);
    if m > 1 {
        assert(is_round(cost, s, history[m - 2], history[m - 1]));
    }
    if n > 1 {
        assert(is_round(cost, t, longer[n - 2], longer[n - 1]));
    }
    if m < n {
        assert(is_round(cost, t, longer[m - 1], longer[m]));
        if is_settled(history) {
            lemma_rest_stays(cost, s, t, c, history, longer, n - 1);
        }
    }
}

/// What every cut can cost is less than infinity.
pub open spec fn costs_are_finite<F: Fn(&Vec<u32>, usize, usize, usize) -> u32>(
    cost: F,
    sorted: Vec<u32>,
) -> bool {
    forall|l: usize, j: usize, r: usize, x: u32|
        l < j < r <= sorted@.len() && #[trigger] call_ensures(cost, (&sorted, l, j, r), x)
            ==> smaller(x, INFINITY)
}

/// The costs of cuts can be told.
pub open spec fn can_cost<F: Fn(&Vec<u32>, usize, usize, usize) -> u32>(
    cost: F,
    sorted: Vec<u32>,
) -> bool {
    forall|l: usize, j: usize, r: usize|
        l < j < r <= sorted@.len() ==> #[trigger] call_requires(cost, (&sorted, l, j, r))
}

/// The cuts that came out.
pub open spec fn cuts_of(r: Option<Boundaries>) -> Option<Seq<usize>> {
    match r {
        Some(cuts) => Some(cuts.bounds@),
        None => None,
    }
}

/// Cuts sorted numbers into `c` runs. `cost` tells what it costs to cut the numbers from one
/// place up to another in two at a place between them. Starting from runs of equal length, all
/// cuts are moved to their cheapest places until they stay there. Nothing comes out where cuts
/// get so far out of order that they cannot be moved, which finite costs rule out.
pub fn settle_cuts<F: Fn(&Vec<u32>, usize, usize, usize) -> u32>(
    c: usize,
    sorted: &Vec<u32>,
    cost: &F,
) -> (r: Option<Boundaries>)
    requires
        0 < c < sorted@.len(),
        can_cost(*cost, *sorted),
    ensures
        costs_are_finite(*cost, *sorted) ==> r is Some,
        is_outcome(*cost, *sorted, c as int, cuts_of(r)),
        r matches Some(cuts) ==> is_outcome(*cost, *sorted, c as int, Some(cuts.bounds@)),
        r is None ==> is_outcome(*cost, *sorted, c as int, None),
        r matches Some(cuts) ==> bounds_of(cuts.bounds@, c as int, sorted@.len() as int),
{
    let n: usize = sorted.len();
    let mut cuts = Boundaries::new(c, n);
    let ghost mut history = seq![cuts.bounds@];
    let mut rounds: usize = 0;
    let mut settled = false;
    while rounds < MAX_ROUNDS && !settled
        invariant
            0 < c < n,
            rounds <= MAX_ROUNDS,
            n == sorted@.len(),
            can_cost(*cost, *sorted),
            bounds_of(cuts.bounds@, c as int, n as int),
            costs_are_finite(*cost, *sorted) ==> wide(cuts.bounds@),
            is_history(*cost, *sorted, c as int, history),
            history.len() == rounds + 1,
            history.last() == cuts.bounds@,
            settled ==> is_settled(history),
        decreases MAX_ROUNDS - rounds,
    {
        if !cuts.can_advance() {
            assert(is_history(*cost, *sorted, c as int, history) && is_stuck(history));
            return None;
        }
        let ghost b = cuts.bounds@;
        let mut costs: Vec<Vec<u32>> = Vec::new();
        for i in 1..c
            invariant
                0 < c < n,
                1 <= i <= c,
                b == cuts.bounds@,
                bounds_of(b, c as int, n as int),
                movable(b),
                costs@.len() == i - 1,
                n == sorted@.len(),
                can_cost(*cost, *sorted),
                forall|k: int|
                    0 <= k < costs@.len() && b[k + 2] - b[k] > 1 ==> (#[trigger] costs@[k])@.len()
                        == b[k + 2] - b[k] - 1,
                forall|k: int|
                    0 <= k < costs@.len() ==> row_from(
                        *cost,
                        *sorted,
                        b[k],
                        b[k + 2],
                        (#[trigger] costs@[k])@,
                    ),
        {
            let (left, right) = cuts.neighbors(i);
            assert(left == b[i - 1] && right == b[i - 1 + 2]);
            assert(right <= n) by {
                if i + 1 < c {
                    assert(b[i + 1] < n);
                }
            }
            let mut row: Vec<u32> = Vec::new();
            if left < right {
                for j in left + 1..right
                    invariant
                        left < right <= n,
                        row@.len() == j - left - 1,
                        n == sorted@.len(),
                        can_cost(*cost, *sorted),
                        forall|m: int|
                            0 <= m < row@.len() ==> call_ensures(
                                *cost,
                                (sorted, left, (left + 1 + m) as usize, right),
                                #[trigger] row@[m],
                            ),
                {
                    row.push(cost(sorted, left, j, right));
                }
            }
            assert(row_from(*cost, *sorted, left, right, row@));
            costs.push(row);
        }
        assert(costs_from(*cost, *sorted, b, costs@));
        settled = cuts.advance(costs.as_slice());
        rounds = rounds + 1;
        proof {
            lemma_moved_bounds(b, costs@, c as int, n as int);
            if costs_are_finite(*cost, *sorted) {
                assert forall|k: int| 0 <= k < costs@.len() implies has_finite(
                    (#[trigger] costs@[k])@,
                ) by {
                    assert(b[k] + 2 <= b[k + 2]);
                    assert(costs@[k]@.len() == b[k + 2] - b[k] - 1);
                    assert(row_from(*cost, *sorted, b[k], b[k + 2], costs@[k]@));
                    let x = costs@[k]@[0];
                    assert(call_ensures(
                        *cost,
                        (sorted, b[k], (b[k] + 1 + 0) as usize, b[k + 2]),
                        x,
                    ));
                    assert(b[k + 2] <= n) by {
                        if k + 2 < c {
                            assert(b[k + 2] < n);
                        }
                    }
                    assert(smaller(x, INFINITY));
                }
                law_cuts_stay_movable(b, costs@, c as int, n as int);
            }
            let earlier = history;
            history = history.push(cuts.bounds@);
            assert(is_round(*cost, *sorted, b, cuts.bounds@));
            assert forall|k: int, l: int| 0 <= k && l == k + 1 && l < history.len() implies is_round(
                *cost,
                *sorted,
                #[trigger] history[k],
                #[trigger] history[l],
            ) by {
                if l < earlier.len() {
                    assert(earlier[k] == history[k] && earlier[l] == history[l]);
                } else {
                    assert(history[k] == b);
                }
            }
        }
    }
    assert(is_settled(history));
    Some(cuts)
}

/// However the cuts are moved, they stay among the numbers.
proof fn lemma_moved_bounds(b: Seq<usize>, costs: Seq<Vec<u32>>, c: int, n: int)
    requires
        bounds_of(b, c, n),
        costs_fit(b, costs),
        n <= usize::MAX,
    ensures
        bounds_of(moved(b, costs), c, n),
{
    let m = moved(b, costs);
    assert forall|i: int| 0 < i < c implies 0 < #[trigger] m[i] < n by {
        assert(0 < b[i] < n);
        if b[i + 1] - b[i - 1] > 1 {
            assert(costs[i - 1]@.len() == b[i - 1 + 2] - b[i - 1] - 1);
            if has_finite(costs[i - 1]@) {
                lemma_best_cut_between(b[i - 1] as int, b[i] as int, costs[i - 1]@);
                if i + 1 < c {
                    assert(b[i + 1] < n);
                }
            }
        }
    }
}

/// What stands for run `i`: its mean, or its first number if the run is empty.
pub open spec fn is_center<M: Fn(&Vec<u32>, usize, usize) -> u32>(
    mean: M,
    sorted: Vec<u32>,
    b: Seq<usize>,
    i: int,
    x: u32,
) -> bool {
    if b[i] < b[i + 1] {
        call_ensures(mean, (&sorted, b[i], b[i + 1]), x)
    } else {
        x == sorted@[b[i] as int]
    }
}

/// Numbers were sorted and cut, and `r` holds what stands for each run.
pub open spec fn is_grouping_by<
    F: Fn(&Vec<u32>, usize, usize, usize) -> u32,
    M: Fn(&Vec<u32>, usize, usize) -> u32,
>(
    cost: F,
    mean: M,
    c: int,
    a: Seq<u32>,
    r: Option<Seq<u32>>,
    sorted: Vec<u32>,
    cuts: Option<Seq<usize>>,
) -> bool {
    &&& is_sorted_from(sorted@, a)
    &&& sorted@.len() == a.len()
    &&& is_outcome(cost, sorted, c, cuts)
    &&& cuts is Some <==> r is Some
    &&& cuts is Some ==> {
        &&& bounds_of(cuts->0, c, a.len() as int)
        &&& (r->0).len() == c
        &&& forall|i: int|
            0 <= i < c ==> is_center(mean, sorted, cuts->0, i, #[trigger] (r->0)[i])
    }
}

/// `r` holds what stands for each of the `c` groups of some numbers.
pub open spec fn is_grouping<
    F: Fn(&Vec<u32>, usize, usize, usize) -> u32,
    M: Fn(&Vec<u32>, usize, usize) -> u32,
>(cost: F, mean: M, c: int, a: Seq<u32>, r: Option<Seq<u32>>) -> bool {
    exists|sorted: Vec<u32>, cuts: Option<Seq<usize>>| #[trigger]
        is_grouping_by(cost, mean, c, a, r, sorted, cuts)
}

/// The numbers that come out are the means of the runs of the sorted numbers between settled
/// cuts, in their order; an empty run gives its first number. Nothing comes out only where the
/// cuts got stuck.
pub proof fn law_groups_are_means_of_runs<
    F: Fn(&Vec<u32>, usize, usize, usize) -> u32,
    M: Fn(&Vec<u32>, usize, usize) -> u32,
>(cost: F, mean: M, c: int, a: Seq<u32>, r: Option<Seq<u32>>)
    requires
        is_grouping(cost, mean, c, a, r),
    ensures
        exists|sorted: Vec<u32>, cuts: Option<Seq<usize>>|
            {
                &&& #[trigger] is_outcome(cost, sorted, c, cuts)
                &&& sorted@.to_multiset() == a.to_multiset()
                &&& forall|i: int, j: int|
                    0 <= i <= j < a.len() ==> !smaller(#[trigger] sorted@[j], #[trigger] sorted@[i])
                &&& r is None <==> cuts is None
                &&& r is Some ==> {
                    let (b, x) = (cuts->0, r->0);
                    &&& x.len() == c
                    &&& b.len() == c + 1
                    &&& b[0] == 0
                    &&& b[c] == a.len()
                    &&& forall|i: int|
                        0 <= i < c ==> if b[i] < b[i + 1] {
                            call_ensures(mean, (&sorted, b[i], b[i + 1]), #[trigger] x[i])
                        } else {
                            x[i] == sorted@[b[i] as int]
                        }
                }
            },
{
    let (sorted, cuts) = choose|sorted: Vec<u32>, cuts: Option<Seq<usize>>| #[trigger]
        is_grouping_by(cost, mean, c, a, r, sorted, cuts);
    law_sorting_rearranges(a, sorted@, 0, 0);
    assert forall|i: int, j: int| 0 <= i <= j < a.len() implies !smaller(
        #[trigger] sorted@[j],
        #[trigger] sorted@[i],
    ) by {
        law_sorting_rearranges(a, sorted@, i, j);
    }
    if r is Some {
        assert forall|i: int| 0 <= i < c implies if cuts->0[i] < cuts->0[i + 1] {
            call_ensures(mean, (&sorted, cuts->0[i], cuts->0[i + 1]), #[trigger] (r->0)[i])
        } else {
            (r->0)[i] == sorted@[cuts->0[i] as int]
        } by {
            assert(is_center(mean, sorted, cuts->0, i, (r->0)[i]));
        }
    }
    assert(is_outcome(cost, sorted, c, cuts));
}

/// The mean of every run can be told.
pub open spec fn can_mean<M: Fn(&Vec<u32>, usize, usize) -> u32>(
    mean: M,
    sorted: Vec<u32>,
) -> bool {
    forall|l: usize, r: usize|
        l < r <= sorted@.len() ==> #[trigger] call_requires(mean, (&sorted, l, r))
}

/// The numbers that came out.
pub open spec fn numbers_of(r: Option<Vec<u32>>) -> Option<Seq<u32>> {
    match r {
        Some(numbers) => Some(numbers@),
        None => None,
    }
}

/// Groups numbers into `c` intervals and gives what stands for each: the numbers are sorted and
/// cut into runs, and `mean` tells the mean of a run.
pub fn kmeans1d<
    F: Fn(&Vec<u32>, usize, usize, usize) -> u32,
    M: Fn(&Vec<u32>, usize, usize) -> u32,
>(c: usize, a: &[u32], cost: F, mean: M) -> (r: Option<Vec<u32>>)
    requires
        0 < c < a@.len(),
        forall|i: int| 0 <= i < a@.len() ==> !not_a_number(#[trigger] a@[i]),
        forall|sorted: Vec<u32>| #[trigger]
            is_sorted_from(sorted@, a@) && sorted@.len() == a@.len() ==> can_cost(cost, sorted)
                && can_mean(mean, sorted),
    ensures
        is_grouping(cost, mean, c as int, a@, numbers_of(r)),
        r matches Some(numbers) ==> is_grouping(cost, mean, c as int, a@, Some(numbers@)),
        r is None ==> is_grouping(cost, mean, c as int, a@, None),
        (forall|sorted: Vec<u32>| #[trigger]
            is_sorted_from(sorted@, a@) ==> costs_are_finite(cost, sorted)) ==> r is Some,
{
    let sorted = sort_numbers(a);
    assert(is_sorted_from(sorted@, a@));
    let cuts = match settle_cuts(c, &sorted, &cost) {
        Some(cuts) => cuts,
        None => {
            let none: Option<Vec<u32>> = None;
            assert(is_grouping_by(cost, mean, c as int, a@, numbers_of(none), sorted, None));
            return none;
        },
    };
    let ghost b = cuts.bounds@;
    let runs = cuts.runs();
    let mut r: Vec<u32> = Vec::new();
    for i in 0..c
        invariant
            bounds_of(b, c as int, sorted@.len() as int),
            can_mean(mean, sorted),
            runs@ == Seq::new((b.len() - 1) as nat, |k: int| (b[k], b[k + 1])),
            r@.len() == i,
            forall|k: int| 0 <= k < i ==> is_center(mean, sorted, b, k, #[trigger] r@[k]),
    {
        let (left, right) = runs[i];
        proof {
            if i > 0 {
                assert(0 < b[i as int] < sorted@.len());
            }
            if i + 1 < c {
                assert(0 < b[i + 1] < sorted@.len());
            }
        }
        let x: u32 = if left < right {
            mean(&sorted, left, right)
        } else {
            sorted[left]
        };
        r.push(x);
    }
    assert(is_grouping_by(cost, mean, c as int, a@, Some(r@), sorted, Some(b)));
    Some(r)
}

/// Costs and means are told from the numbers alone, not from how a zero is written.
pub open spec fn tell_by_numbers<
    F: Fn(&Vec<u32>, usize, usize, usize) -> u32,
    M: Fn(&Vec<u32>, usize, usize) -> u32,
>(cost: F, mean: M) -> bool {
    &&& forall|s: Vec<u32>, t: Vec<u32>|
        #[trigger] same_numbers(s@, t@) ==> costs_agree(cost, s, t)
    &&& forall|s: Vec<u32>, t: Vec<u32>, l: usize, r: usize, x: u32, y: u32|
        same_numbers(s@, t@) && #[trigger] call_ensures(mean, (&s, l, r), x)
            && #[trigger] call_ensures(mean, (&t, l, r), y) ==> place(x) == place(y)
}

/// The order in which numbers come does not matter: whatever comes out of them in one order
/// comes out of them in any other, the same number for each group.
pub proof fn law_order_does_not_matter<
    F: Fn(&Vec<u32>, usize, usize, usize) -> u32,
    M: Fn(&Vec<u32>, usize, usize) -> u32,
>(
    cost: F,
    mean: M,
    c: int,
    a: Seq<u32>,
    b: Seq<u32>,
    r: Option<Seq<u32>>,
    q: Option<Seq<u32>>,
)
    requires
        a.to_multiset() == b.to_multiset(),
        tell_by_numbers(cost, mean),
        is_grouping(cost, mean, c, a, r),
        is_grouping(cost, mean, c, b, q),
    ensures
        r is Some <==> q is Some,
        r is Some ==> same_numbers(r->0, q->0) && (r->0).len() == c,
{
    let (s, cuts) = choose|s: Vec<u32>, cuts: Option<Seq<usize>>| #[trigger]
        is_grouping_by(cost, mean, c, a, r, s, cuts);
    let (t, others) = choose|t: Vec<u32>, others: Option<Seq<usize>>| #[trigger]
        is_grouping_by(cost, mean, c, b, q, t, others);
    law_sorting_forgets_the_order(a, b, s@, t@);
    assert(same_numbers(s@, t@));
    law_costs_determine_the_cuts(cost, s, t, c, cuts, others);
    if r is Some {
        let at = cuts->0;
        assert forall|i: int| 0 <= i < c implies place(#[trigger] (r->0)[i]) == place(
            (q->0)[i],
        ) by {
            assert(is_center(mean, s, at, i, (r->0)[i]));
            assert(is_center(mean, t, at, i, (q->0)[i]));
            if i > 0 {
                assert(0 < at[i] < a.len());
            }
        }
    }
}

/// There are `c` numbers, and one alone is the mean of all. Where a mean lies between the
/// smallest and the largest number of its run, each of them lies between the smallest and the
/// largest number of all.
pub proof fn law_groups_lie_among_the_numbers<
    F: Fn(&Vec<u32>, usize, usize, usize) -> u32,
    M: Fn(&Vec<u32>, usize, usize) -> u32,
>(cost: F, mean: M, c: int, a: Seq<u32>, r: Seq<u32>, i: int)
    requires
        is_grouping(cost, mean, c, a, Some(r)),
        0 <= i < c,
    ensures
        r.len() == c,
        exists|sorted: Vec<u32>|
            {
                &&& #[trigger] is_sorted_from(sorted@, a)
                &&& sorted@.len() == a.len()
                &&& c == 1 ==> call_ensures(mean, (&sorted, 0, a.len() as usize), r[0])
                &&& means_lie_between(mean, sorted) ==> place(sorted@[0]) <= place(r[i]) <= place(
                    sorted@.last(),
                )
            },
{
    let (sorted, cuts) = choose|sorted: Vec<u32>, cuts: Option<Seq<usize>>| #[trigger]
        is_grouping_by(cost, mean, c, a, Some(r), sorted, cuts);
    let b = cuts->0;
    assert(is_center(mean, sorted, b, i, r[i]));
    assert(is_center(mean, sorted, b, 0, r[0]));
    if i > 0 {
        assert(0 < b[i] < a.len());
    }
    if i + 1 < c {
        assert(0 < b[i + 1] < a.len());
    }
    assert(is_sorted_from(sorted@, a));
}

/// The mean of a run lies between its smallest and its largest number.
pub open spec fn means_lie_between<M: Fn(&Vec<u32>, usize, usize) -> u32>(
    mean: M,
    sorted: Vec<u32>,
) -> bool {
    forall|l: usize, r: usize, x: u32|
        l < r <= sorted@.len() && #[trigger] call_ensures(mean, (&sorted, l, r), x) ==> place(
            sorted@[l as int],
        ) <= place(x) <= place(sorted@[r - 1])
}

} // verus!
