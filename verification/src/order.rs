//! What it means for a sequence of integers to be in ascending order, and for
//! one sequence to be a rearrangement of another.

use vstd::prelude::*;
use vstd::relations::{sorted_by, total_ordering};
use vstd::seq_lib::{
    lemma_multiset_commutative, lemma_sorted_unique, to_multiset_contains, to_multiset_update,
};

verus! {

/// `s` is in ascending order: no element is greater than a later one.
pub open spec fn sorted(s: Seq<i32>) -> bool {
    forall|i: int, j: int| 0 <= i <= j < s.len() ==> s[i] <= s[j]
}

/// `s` is in descending order: no element is less than a later one.
pub open spec fn sorted_descending(s: Seq<i32>) -> bool {
    forall|i: int, j: int| 0 <= i <= j < s.len() ==> s[i] >= s[j]
}

/// The elements of `s` at positions `lo..hi` are in ascending order.
pub open spec fn sorted_within(s: Seq<i32>, lo: int, hi: int) -> bool {
    forall|i: int, j: int| lo <= i <= j < hi ==> s[i] <= s[j]
}

/// `after` has the length of `before` and differs from it at positions
/// `lo..hi` only.
pub open spec fn unchanged_outside(after: Seq<i32>, before: Seq<i32>, lo: int, hi: int) -> bool {
    &&& after.len() == before.len()
    &&& forall|k: int| 0 <= k < before.len() && !(lo <= k < hi) ==> after[k] == before[k]
}

/// `after` is `before` with the elements at positions `lo..hi` rearranged
/// among themselves: the range holds the same elements as before, each as
/// often, and every other position holds what it held.
pub open spec fn same_elements_within(after: Seq<i32>, before: Seq<i32>, lo: int, hi: int) -> bool {
    &&& unchanged_outside(after, before, lo, hi)
    &&& after.subrange(lo, hi).to_multiset() == before.subrange(lo, hi).to_multiset()
}

/// `output` holds exactly the elements of `input`, each as often as `input`
/// does, in ascending order.
pub open spec fn is_sort_of(output: Seq<i32>, input: Seq<i32>) -> bool {
    &&& sorted(output)
    &&& output.to_multiset() == input.to_multiset()
}

/// `s` with the elements at positions `a` and `b` exchanged.
pub open spec fn swapped<E>(s: Seq<E>, a: int, b: int) -> Seq<E> {
    s.update(a, s[b]).update(b, s[a])
}

/// Exchanging two elements of a sequence neither adds nor loses an element.
pub proof fn lemma_swap_keeps_elements(s: Seq<i32>, a: int, b: int)
    requires
        0 <= a < s.len(),
        0 <= b < s.len(),
    ensures
        swapped(s, a, b).to_multiset() == s.to_multiset(),
{
    let half = s.update(a, s[b]);
    to_multiset_update(s, a, s[b]);
    to_multiset_update(half, b, s[a]);
    to_multiset_contains(s, s[a]);
    to_multiset_contains(s, s[b]);
    assert(swapped(s, a, b).to_multiset() =~= s.to_multiset());
}

/// Exchanging two elements of a range rearranges that range and nothing else.
pub proof fn lemma_swap_within_keeps_elements(s: Seq<i32>, a: int, b: int, lo: int, hi: int)
    requires
        0 <= lo <= a < hi <= s.len(),
        lo <= b < hi,
    ensures
        same_elements_within(swapped(s, a, b), s, lo, hi),
{
    lemma_swap_keeps_elements(s.subrange(lo, hi), a - lo, b - lo);
    assert(swapped(s, a, b).subrange(lo, hi) =~= swapped(s.subrange(lo, hi), a - lo, b - lo));
}

/// What is rearranged within a range is rearranged within every wider range.
pub proof fn lemma_same_elements_within_wider(
    after: Seq<i32>,
    before: Seq<i32>,
    lo: int,
    hi: int,
    wider_lo: int,
    wider_hi: int,
)
    requires
        same_elements_within(after, before, lo, hi),
        0 <= wider_lo <= lo <= hi <= wider_hi <= before.len(),
    ensures
        same_elements_within(after, before, wider_lo, wider_hi),
{
    let head = before.subrange(wider_lo, lo);
    let tail = before.subrange(hi, wider_hi);
    assert(after.subrange(wider_lo, lo) =~= head);
    assert(after.subrange(hi, wider_hi) =~= tail);
    assert(before.subrange(wider_lo, wider_hi) =~= head + before.subrange(lo, hi) + tail);
    assert(after.subrange(wider_lo, wider_hi) =~= head + after.subrange(lo, hi) + tail);
    lemma_multiset_commutative(head, before.subrange(lo, hi));
    lemma_multiset_commutative(head + before.subrange(lo, hi), tail);
    lemma_multiset_commutative(head, after.subrange(lo, hi));
    lemma_multiset_commutative(head + after.subrange(lo, hi), tail);
}

/// What is rearranged within a range of a sequence holds the elements of the
/// sequence.
pub proof fn lemma_same_elements_within_keeps_elements(
    after: Seq<i32>,
    before: Seq<i32>,
    lo: int,
    hi: int,
)
    requires
        same_elements_within(after, before, lo, hi),
        0 <= lo <= hi <= before.len(),
    ensures
        after.to_multiset() == before.to_multiset(),
{
    lemma_same_elements_within_wider(after, before, lo, hi, 0, before.len() as int);
    assert(after.subrange(0, after.len() as int) =~= after);
    assert(before.subrange(0, before.len() as int) =~= before);
}

/// An element that stands in a rearranged range stood in that range before.
pub proof fn lemma_element_within_was_within(
    after: Seq<i32>,
    before: Seq<i32>,
    lo: int,
    hi: int,
    k: int,
)
    requires
        same_elements_within(after, before, lo, hi),
        0 <= lo <= k < hi <= before.len(),
    ensures
        exists|m: int| lo <= m < hi && before[m] == after[k],
{
    let part = after.subrange(lo, hi);
    let part_before = before.subrange(lo, hi);
    assert(part[k - lo] == after[k]);
    assert(part.contains(after[k]));
    to_multiset_contains(part, after[k]);
    to_multiset_contains(part_before, after[k]);
    let m = choose|m: int| 0 <= m < part_before.len() && part_before[m] == after[k];
    assert(before[lo + m] == after[k]);
}

/// Reading a descending sequence backwards gives its ascending arrangement.
pub proof fn lemma_reverse_of_descending_is_sort(s: Seq<i32>)
    requires
        sorted_descending(s),
    ensures
        is_sort_of(s.reverse(), s),
{
    s.lemma_reverse_to_multiset();
    let r = s.reverse();
    assert forall|i: int, j: int| 0 <= i <= j < r.len() implies r[i] <= r[j] by {
        assert(r[i] == s[s.len() - 1 - i]);
        assert(r[j] == s[s.len() - 1 - j]);
    }
}

/// A sequence has one ascending arrangement only: two sorted sequences with
/// the same elements are the same sequence.
pub proof fn lemma_sort_is_unique(a: Seq<i32>, b: Seq<i32>)
    requires
        sorted(a),
        sorted(b),
        a.to_multiset() == b.to_multiset(),
    ensures
        a == b,
{
    let leq = |x: i32, y: i32| x <= y;
    assert(total_ordering(leq));
    assert(sorted_by(a, leq));
    assert(sorted_by(b, leq));
    lemma_sorted_unique(a, b, leq);
}

} // verus!
