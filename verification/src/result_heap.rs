//! Search results, of which the nearest comes out first.
use crate::item_pointer::ItemPointer;
use crate::single::{law_patterns_are_ordered, law_patterns_without_number_lie_outside, not_a_number, smaller, total_place, total_place_of};
use vstd::multiset::Multiset;
use vstd::prelude::*;
use vstd::seq_lib::group_to_multiset_ensures;

verus! {

/// A row that a search has found: where it is, where its node is, and how far it is from the
/// query, as the bit pattern of a single-precision number.
#[derive(Clone, Copy, Debug, PartialEq, Eq, Structural)]
pub struct SearchResult {
    pub heap_pointer: ItemPointer,
    pub index_pointer: ItemPointer,
    pub distance: u32,
}

impl SearchResult {
    /// This result is no farther from the query than another, in the order of all patterns.
    pub open spec fn no_farther(self, other: SearchResult) -> bool {
        total_place(self.distance) <= total_place(other.distance)
    }

    fn is_no_farther(&self, other: &SearchResult) -> (r: bool)
        ensures
            r == self.no_farther(*other),
    {
        total_place_of(self.distance) <= total_place_of(other.distance)
    }
}

/// Place `i` is a child of place `p` in a binary tree that is laid out row by row.
pub open spec fn is_child(p: int, i: int) -> bool {
    i == 2 * p + 1 || i == 2 * p + 2
}

/// No result is nearer than its parent, but perhaps for a child or a parent that is left out.
spec fn ordered_but(s: Seq<SearchResult>, parent: int, child: int) -> bool {
    forall|p: int, i: int|
        0 <= p && i < s.len() && is_child(p, i) && p != parent && i != child ==> (#[trigger] s[p])
            .no_farther(#[trigger] s[i])
}

/// A result is among some results, and none of them is nearer.
pub open spec fn nearest_of(all: Multiset<SearchResult>, x: SearchResult) -> bool {
    &&& all.contains(x)
    &&& forall|y: SearchResult| #[trigger] all.contains(y) ==> x.no_farther(y)
}

/// Search results in the order of a heap.
pub struct ResultHeap {
    pub items: Vec<SearchResult>,
}

impl View for ResultHeap {
    type V = Multiset<SearchResult>;

    open spec fn view(&self) -> Multiset<SearchResult> {
        self.items@.to_multiset()
    }
}

proof fn lemma_update_multiset(s: Seq<SearchResult>, i: int, x: SearchResult)
    requires
        0 <= i < s.len(),
    ensures
        s.update(i, x).to_multiset() == s.to_multiset().remove(s[i]).insert(x),
{
    broadcast use group_to_multiset_ensures;

    assert(s.update(i, x) =~= s.remove(i).insert(i, x));
    vstd::seq_lib::to_multiset_insert(s.remove(i), i, x);
}

proof fn lemma_swap_multiset(s: Seq<SearchResult>, i: int, j: int)
    requires
        0 <= i < s.len(),
        0 <= j < s.len(),
        i != j,
    ensures
        s.update(i, s[j]).update(j, s[i]).to_multiset() == s.to_multiset(),
{
    broadcast use group_to_multiset_ensures;

    lemma_update_multiset(s, i, s[j]);
    lemma_update_multiset(s.update(i, s[j]), j, s[i]);
    let m = s.to_multiset();
    assert(s.contains(s[i]));
    assert(m.count(s[i]) > 0);
    assert(m.remove(s[i]).insert(s[j]).remove(s[j]).insert(s[i]) =~= m);
}

proof fn lemma_root_is_nearest(s: Seq<SearchResult>, i: int)
    requires
        ordered_but(s, -1, -1),
        0 <= i < s.len(),
    ensures
        s[0].no_farther(s[i]),
    decreases i,
{
    if i > 0 {
        let p = (i - 1) / 2;
        lemma_root_is_nearest(s, p);
        assert(is_child(p, i));
        assert(s[p].no_farther(s[i]));
    }
}

impl ResultHeap {
    /// No result is nearer than its parent.
    pub closed spec fn wf(self) -> bool {
        ordered_but(self.items@, -1, -1)
    }

    pub fn new() -> (r: ResultHeap)
        ensures
            r.wf(),
            r@ == Multiset::<SearchResult>::empty(),
    {
        broadcast use group_to_multiset_ensures;

        let r = ResultHeap { items: Vec::new() };
        assert(r@.len() == 0);
        assert(r@ =~= Multiset::<SearchResult>::empty());
        r
    }

    pub fn len(&self) -> (r: usize)
        ensures
            r == self@.len(),
    {
        broadcast use group_to_multiset_ensures;

        self.items.len()
    }

    /// Adds a result.
    pub fn push(&mut self, item: SearchResult)
        requires
            old(self).wf(),
        ensures
            final(self).wf(),
            final(self)@ == old(self)@.insert(item),
    {
        broadcast use group_to_multiset_ensures;

        let mut at: usize = self.items.len();
        self.items.push(item);
        let ghost all = self.items@.to_multiset();
        assert(ordered_but(self.items@, -1, at as int));
        while at > 0 && self.items[at].is_no_farther(&self.items[(at - 1) / 2])
            invariant
                at < self.items@.len(),
                ordered_but(self.items@, -1, at as int),
                forall|p: int, i: int|
                    0 <= p && is_child(p, at as int) && i < self.items@.len() && is_child(
                        at as int,
                        i,
                    ) ==> (#[trigger] self.items@[p]).no_farther(#[trigger] self.items@[i]),
                self.items@.to_multiset() == all,
            decreases at,
        {
            let p: usize = (at - 1) / 2;
            let ghost before = self.items@;
            let child = self.items[at];
            let parent = self.items[p];
            self.items[at] = parent;
            self.items[p] = child;
            proof {
                assert(is_child(p as int, at as int));
                lemma_swap_multiset(before, at as int, p as int);
                let after = self.items@;
                assert forall|q: int, i: int|
                    0 <= q && i < after.len() && is_child(q, i) && q != -1 && i != p implies (
                #[trigger] after[q]).no_farther(#[trigger] after[i]) by {
                    if q == p {
                        if i != at {
                            assert(before[p as int].no_farther(before[i]));
                        }
                    } else if q == at {
                        assert(before[p as int].no_farther(before[i]));
                    } else {
                        assert(before[q].no_farther(before[i]));
                    }
                }
                assert forall|q: int, i: int|
                    0 <= q && is_child(q, p as int) && i < after.len() && is_child(
                        p as int,
                        i,
                    ) implies (#[trigger] after[q]).no_farther(#[trigger] after[i]) by {
                    assert(before[q].no_farther(before[p as int]));
                    if i != at {
                        assert(before[p as int].no_farther(before[i]));
                    }
                }
            }
            at = p;
        }
        proof {
            let s = self.items@;
            assert forall|q: int, i: int|
                0 <= q && i < s.len() && is_child(q, i) && q != -1 && i != -1 implies (
            #[trigger] s[q]).no_farther(#[trigger] s[i]) by {
                if i == at {
                    assert(q == (at - 1) / 2);
                }
            }
        }
    }

    /// Takes a nearest result out, if there is any.
    pub fn pop(&mut self) -> (r: Option<SearchResult>)
        requires
            old(self).wf(),
        ensures
            final(self).wf(),
            r is None <==> old(self)@.len() == 0,
            match r {
                Some(x) => nearest_of(old(self)@, x) && final(self)@ == old(self)@.remove(x),
                None => final(self)@ == old(self)@,
            },
    {
        broadcast use group_to_multiset_ensures;

        let ghost start = self.items@;
        if self.items.len() == 0 {
            return None;
        }
        let root = self.items[0];
        proof {
            assert(start.contains(root));
            assert forall|y: SearchResult| #[trigger] old(self)@.contains(y) implies root.no_farther(
                y,
            ) by {
                assert(start.contains(y));
                let i = choose|i: int| 0 <= i < start.len() && start[i] == y;
                lemma_root_is_nearest(start, i);
            }
        }
        let n: usize = self.items.len() - 1;
        let last = self.items[n];
        self.items.pop();
        proof {
            assert(self.items@ =~= start.remove(n as int));
        }
        if n == 0 {
            assert(self.items@ =~= Seq::empty());
            return Some(root);
        }
        let ghost cut = self.items@;
        self.items[0] = last;
        proof {
            lemma_update_multiset(cut, 0, last);
            let m = start.to_multiset();
            assert(start.contains(last));
            assert(cut[0] == root);
            assert(cut.to_multiset() == m.remove(last));
            assert(cut.contains(root));
            assert(m.remove(last).remove(root).insert(last) =~= m.remove(root));
        }
        let ghost all = self.items@.to_multiset();
        let mut at: usize = 0;
        assert(ordered_but(self.items@, 0, -1)) by {
            assert forall|p: int, i: int|
                0 <= p && i < self.items@.len() && is_child(p, i) && p != 0 && i != -1 implies (
            #[trigger] self.items@[p]).no_farther(#[trigger] self.items@[i]) by {
                assert(start[p].no_farther(start[i]));
            }
        }
        let mut sifting = true;
        while sifting
            invariant
                n == self.items@.len(),
                0 < n,
                at < n,
                ordered_but(self.items@, at as int, -1),
                !sifting ==> ordered_but(self.items@, -1, -1),
                sifting ==> forall|p: int, i: int|
                    0 <= p && is_child(p, at as int) && i < n && is_child(at as int, i) ==> (
                    #[trigger] self.items@[p]).no_farther(#[trigger] self.items@[i]),
                self.items@.to_multiset() == all,
            decreases
                    n - at,
                    if sifting {
                        1int
                    } else {
                        0int
                    },
        {
            if at >= n / 2 {
                proof {
                    let s = self.items@;
                    assert forall|p: int, i: int|
                        0 <= p && i < s.len() && is_child(p, i) && p != -1 && i != -1 implies (
                    #[trigger] s[p]).no_farther(#[trigger] s[i]) by {}
                }
                sifting = false;
            } else {
                let left: usize = 2 * at + 1;
                let nearer: usize = if left + 1 < n && !self.items[left].is_no_farther(
                    &self.items[left + 1],
                ) {
                    left + 1
                } else {
                    left
                };
                let ghost before = self.items@;
                assert(is_child(at as int, nearer as int));
                if self.items[at].is_no_farther(&self.items[nearer]) {
                    proof {
                        assert forall|p: int, i: int|
                            0 <= p && i < before.len() && is_child(p, i) && p != -1 && i
                                != -1 implies (#[trigger] before[p]).no_farther(
                            #[trigger] before[i],
                        ) by {
                            if p == at {
                                assert(i == left || i == left + 1);
                            }
                        }
                    }
                    sifting = false;
                } else {
                    let parent = self.items[at];
                    let child = self.items[nearer];
                    self.items[at] = child;
                    self.items[nearer] = parent;
                    proof {
                        lemma_swap_multiset(before, at as int, nearer as int);
                        let after = self.items@;
                        assert forall|p: int, i: int|
                            0 <= p && i < after.len() && is_child(p, i) && p != nearer && i
                                != -1 implies (#[trigger] after[p]).no_farther(
                            #[trigger] after[i],
                        ) by {
                            if p == at {
                                assert(i == left || i == left + 1);
                            } else if i == at {
                                assert(before[p].no_farther(before[nearer as int]));
                            } else {
                                assert(before[p].no_farther(before[i]));
                            }
                        }
                        assert forall|p: int, i: int|
                            0 <= p && is_child(p, nearer as int) && i < n && is_child(
                                nearer as int,
                                i,
                            ) implies (#[trigger] after[p]).no_farther(#[trigger] after[i]) by {
                            assert(p == at);
                            assert(before[nearer as int].no_farther(before[i]));
                        }
                    }
                    at = nearer;
                }
            }
        }
        Some(root)
    }
}

/// Of two results that are taken out one after the other, the second is not nearer.
pub proof fn law_results_come_nearest_first(
    all: Multiset<SearchResult>,
    x: SearchResult,
    y: SearchResult,
)
    requires
        nearest_of(all, x),
        nearest_of(all.remove(x), y),
    ensures
        x.no_farther(y),
{
    assert(all.contains(y));
}

/// A result that is taken out is among the results, and no other is at a smaller distance; one
/// at no number for a distance comes out behind all that have one, or before them if its sign
/// is set.
pub proof fn law_taken_result_is_nearest(
    all: Multiset<SearchResult>,
    x: SearchResult,
    y: SearchResult,
)
    requires
        nearest_of(all, x),
        all.contains(y),
    ensures
        all.contains(x),
        !smaller(y.distance, x.distance),
        not_a_number(x.distance) && x.distance < 0x8000_0000 ==> not_a_number(y.distance),
        not_a_number(y.distance) && y.distance >= 0x8000_0000 ==> not_a_number(x.distance),
{
    law_patterns_are_ordered(y.distance, x.distance);
    if not_a_number(x.distance) && !not_a_number(y.distance) {
        law_patterns_without_number_lie_outside(x.distance, y.distance);
    }
    if not_a_number(y.distance) && !not_a_number(x.distance) {
        law_patterns_without_number_lie_outside(y.distance, x.distance);
    }
    assert(x.no_farther(y));
}

/// All results leave, one after the other, each time a nearest of those that are left.
pub open spec fn leave_in_order(all: Multiset<SearchResult>, order: Seq<SearchResult>) -> bool
    decreases order.len(),
{
    if order.len() == 0 {
        all.len() == 0
    } else {
        nearest_of(all, order[0]) && leave_in_order(all.remove(order[0]), order.drop_first())
    }
}

/// Results that are taken until none is left come in the order of their distances, and each of
/// them comes once.
pub proof fn law_every_result_comes_once(all: Multiset<SearchResult>, order: Seq<SearchResult>)
    requires
        leave_in_order(all, order),
    ensures
        order.to_multiset() == all,
        forall|i: int, j: int|
            0 <= i <= j < order.len() ==> (#[trigger] order[i]).no_farther(#[trigger] order[j]),
    decreases order.len(),
{
    broadcast use {group_to_multiset_ensures, vstd::multiset::group_multiset_axioms};

    if order.len() == 0 {
        assert(order.to_multiset().len() == 0);
        assert(order.to_multiset() =~= all);
    } else {
        let (first, rest) = (order[0], order.drop_first());
        law_every_result_comes_once(all.remove(first), rest);
        vstd::seq_lib::to_multiset_insert(rest, 0, first);
        assert(rest.insert(0, first) =~= order);
        assert(all.remove(first).insert(first) =~= all);
        assert forall|i: int, j: int| 0 <= i <= j < order.len() implies (
        #[trigger] order[i]).no_farther(#[trigger] order[j]) by {
            if i == 0 {
                assert(order.contains(order[j]));
                assert(all.contains(order[j]));
            } else {
                assert(rest[i - 1].no_farther(rest[j - 1]));
            }
        }
    }
}

} // verus!
