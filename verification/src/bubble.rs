//! Bubble sort.

use vstd::prelude::*;
use crate::order::{is_sort_of, lemma_sort_is_unique, lemma_swap_keeps_elements, sorted};

verus! {

/// Sorts `numbers` in place, ascending, by passes of adjacent exchanges.
///
/// Pass `i` walks the adjacent pairs of the first `n - i` elements and
/// exchanges each pair whose left element is the greater, which carries the
/// greatest of them to the end of that range. A pass that exchanges nothing
/// has found the sequence sorted and ends the sort.
pub fn bubble_sort(numbers: &mut [i32])
    ensures
        is_sort_of(final(numbers)@, old(numbers)@),
        sorted(old(numbers)@) ==> final(numbers)@ == old(numbers)@,
        old(numbers)@.len() <= 1 ==> final(numbers)@ == old(numbers)@,
{
    let n = numbers.len();
    // How many trailing elements are known to stand in their final place.
    let ghost mut placed: int = 0;
    for i in 0..n
        invariant_except_break
            placed == i,
        invariant
            numbers@.len() == n,
            numbers@.to_multiset() == old(numbers)@.to_multiset(),
            0 <= placed <= n,
            forall|a: int, b: int|
                0 <= a <= b < n && n - placed <= b ==> numbers@[a] <= numbers@[b],
        ensures
            placed == n,
    {
        let mut swapped = false;
        for j in 0..n - i - 1
            invariant
                i < n,
                numbers@.len() == n,
                numbers@.to_multiset() == old(numbers)@.to_multiset(),
                forall|a: int, b: int| 0 <= a <= b < n && n - i <= b ==> numbers@[a] <= numbers@[b],
                forall|a: int| 0 <= a <= j ==> numbers@[a] <= numbers@[j as int],
                !swapped ==> forall|a: int, b: int|
                    0 <= a <= b <= j ==> numbers@[a] <= numbers@[b],
        {
            if numbers[j] > numbers[j + 1] {
                proof {
                    lemma_swap_keeps_elements(numbers@, j as int, j + 1);
                }
                numbers.swap(j, j + 1);
                swapped = true;
            }
        }
        if !swapped {
            proof {
                placed = n as int;
            }
            break;
        }
        proof {
            placed = placed + 1;
        }
    }
    proof {
        assert(sorted(numbers@));
        if sorted(old(numbers)@) || old(numbers)@.len() <= 1 {
            lemma_sort_is_unique(numbers@, old(numbers)@);
        }
    }
}

} // verus!
