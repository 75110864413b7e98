//! Sums and counts over slices.
use vstd::prelude::*;

verus! {

pub open spec fn sum(s: Seq<usize>) -> int
    decreases s.len(),
{
    if s.len() == 0 {
        0
    } else {
        sum(s.drop_last()) + s.last()
    }
}

/// How often a value occurs.
pub open spec fn occurrences(s: Seq<usize>, value: int) -> int
    decreases s.len(),
{
    if s.len() == 0 {
        0
    } else {
        occurrences(s.drop_last(), value) + if s.last() == value {
            1int
        } else {
            0int
        }
    }
}

pub proof fn lemma_occurrences_bounded(s: Seq<usize>, value: int)
    ensures
        0 <= occurrences(s, value) <= s.len(),
    decreases s.len(),
{
    if s.len() > 0 {
        lemma_occurrences_bounded(s.drop_last(), value);
    }
}

/// The sum of numbers that are joined is the sum of the sums, and that of one number is the number.
pub proof fn law_sums_add_up(a: Seq<usize>, b: Seq<usize>, x: usize)
    ensures
        sum(a + b) == sum(a) + sum(b),
        sum(seq![x]) == x,
    decreases b.len(),
{
    assert(seq![x].drop_last() =~= Seq::empty());
    assert(sum(seq![x].drop_last()) == 0);
    if b.len() > 0 {
        law_sums_add_up(a, b.drop_last(), x);
        assert((a + b).drop_last() =~= a + b.drop_last());
    } else {
        assert(a + b =~= a);
    }
}

/// A value occurs as often as a bag of the same values holds it.
pub proof fn law_occurrences_are_counted(s: Seq<usize>, value: usize)
    ensures
        occurrences(s, value as int) == s.to_multiset().count(value),
    decreases s.len(),
{
    broadcast use vstd::seq_lib::group_to_multiset_ensures, vstd::multiset::group_multiset_axioms;

    if s.len() > 0 {
        law_occurrences_are_counted(s.drop_last(), value);
        assert(s =~= s.drop_last().push(s.last()));
    } else {
        assert(s =~= Seq::empty());
    }
}

pub proof fn lemma_prefix_sum_step(s: Seq<usize>, i: int)
    requires
        0 <= i < s.len(),
    ensures
        sum(s.take(i + 1)) == sum(s.take(i)) + s[i],
{
    assert(s.take(i + 1).drop_last() =~= s.take(i));
}

pub proof fn lemma_prefix_sum_bounded(s: Seq<usize>, i: int)
    requires
        0 <= i <= s.len(),
    ensures
        0 <= sum(s.take(i)) <= sum(s),
    decreases s.len() - i,
{
    lemma_sum_non_negative(s.take(i));
    if i < s.len() {
        lemma_prefix_sum_step(s, i);
        lemma_prefix_sum_bounded(s, i + 1);
    } else {
        assert(s.take(i) =~= s);
    }
}

pub proof fn lemma_sum_non_negative(s: Seq<usize>)
    ensures
        0 <= sum(s),
    decreases s.len(),
{
    if s.len() > 0 {
        lemma_sum_non_negative(s.drop_last());
    }
}

/// No term exceeds the sum.
pub proof fn lemma_term_bounded(s: Seq<usize>, i: int)
    requires
        0 <= i < s.len(),
    ensures
        s[i] <= sum(s),
{
    lemma_prefix_sum_step(s, i);
    lemma_prefix_sum_bounded(s, i);
    lemma_prefix_sum_bounded(s, i + 1);
}

pub fn total(s: &[usize]) -> (r: usize)
    requires
        sum(s@) <= usize::MAX,
    ensures
        r == sum(s@),
{
    let mut r: usize = 0;
    for i in 0..s.len()
        invariant
            sum(s@) <= usize::MAX,
            r == sum(s@.take(i as int)),
    {
        proof {
            lemma_prefix_sum_step(s@, i as int);
            lemma_prefix_sum_bounded(s@, i + 1);
        }
        r = r + s[i];
    }
    assert(s@.take(s@.len() as int) =~= s@);
    r
}

pub proof fn lemma_zeros_sum(s: Seq<usize>)
    requires
        forall|i: int| 0 <= i < s.len() ==> #[trigger] s[i] == 0,
    ensures
        sum(s) == 0,
    decreases s.len(),
{
    if s.len() > 0 {
        lemma_zeros_sum(s.drop_last());
    }
}

pub proof fn lemma_sum_update(s: Seq<usize>, i: int, value: usize)
    requires
        0 <= i < s.len(),
    ensures
        sum(s.update(i, value)) == sum(s) - s[i] + value,
    decreases s.len(),
{
    if i < s.len() - 1 {
        assert(s.update(i, value).drop_last() =~= s.drop_last().update(i, value));
        lemma_sum_update(s.drop_last(), i, value);
    } else {
        assert(s.update(i, value).drop_last() =~= s.drop_last());
    }
}

} // verus!
