//! Selection sort.

use vstd::prelude::*;
use crate::order::{
    is_sort_of, lemma_sort_is_unique, lemma_swap_keeps_elements, sorted, sorted_within,
};

verus! {

/// Sorts `numbers` in place, ascending, by selection.
///
/// For each position `i` but the last, the first least element of the
/// positions from `i` on is found and exchanged with the element at `i`,
/// unless it stands there already.
pub fn selection_sort(numbers: &mut [i32])
    ensures
        is_sort_of(final(numbers)@, old(numbers)@),
        sorted(old(numbers)@) ==> final(numbers)@ == old(numbers)@,
        old(numbers)@.len() <= 1 ==> final(numbers)@ == old(numbers)@,
{
    let n = numbers.len();

    for i in 0..n.saturating_sub(1)
        invariant
            n == numbers@.len(),
            numbers@.to_multiset() == old(numbers)@.to_multiset(),
            sorted_within(numbers@, 0, i as int),
            forall|a: int, b: int| 0 <= a < i <= b < n ==> numbers@[a] <= numbers@[b],
    {
        let mut min_index = i;

        for j in (i + 1)..n
            invariant
                n == numbers@.len(),
                i <= min_index < j,
                forall|x: int| i <= x < j ==> numbers@[min_index as int] <= numbers@[x],
        {
            if numbers[j] < numbers[min_index] {
                min_index = j;
            }
        }

        if min_index != i {
            proof {
                lemma_swap_keeps_elements(numbers@, i as int, min_index as int);
            }
            numbers.swap(i, min_index);
        }
    }

    proof {
        assert(sorted(numbers@));
        if sorted(old(numbers)@) || old(numbers)@.len() <= 1 {
            lemma_sort_is_unique(numbers@, old(numbers)@);
        }
    }
}

} // verus!
