//! Insertion sort.

use vstd::prelude::*;
use crate::order::{is_sort_of, lemma_sort_is_unique, sorted, sorted_within, swapped};
use crate::stability::{
    is_arrangement, is_stable_sort_of, keeps_ties_in_order, lemma_arrangement_keeps_elements,
    moves_within,
};

verus! {

/// Sorts `numbers` in place, ascending, by insertion. Elements of equal value
/// keep the order they had.
///
/// The first `i` elements form a sorted prefix. The element at `i` is taken
/// out as the key, every element of the prefix that is strictly greater than
/// the key moves one place to the right, and the key goes into the gap.
pub fn insertion_sort(numbers: &mut [i32])
    ensures
        is_sort_of(final(numbers)@, old(numbers)@),
        is_stable_sort_of(final(numbers)@, old(numbers)@),
        sorted(old(numbers)@) ==> final(numbers)@ == old(numbers)@,
        old(numbers)@.len() <= 1 ==> final(numbers)@ == old(numbers)@,
{
    let n = numbers.len();
    // Where each element stood at the start.
    let ghost mut origin: Seq<int> = Seq::new(n as nat, |k: int| k);

    let mut i: usize = 1;
    while i < n
        invariant
            1 <= i,
            n == numbers@.len() == old(numbers)@.len(),
            is_arrangement(numbers@, old(numbers)@, origin),
            keeps_ties_in_order(numbers@, origin),
            moves_within(origin, 0, i as int),
            sorted_within(numbers@, 0, i as int),
        decreases n - i,
    {
        let key = numbers[i];
        let mut j = i;

        while j > 0 && numbers[j - 1] > key
            invariant
                0 <= j <= i < n,
                n == numbers@.len() == old(numbers)@.len(),
                is_arrangement(numbers@.update(j as int, key), old(numbers)@, origin),
                keeps_ties_in_order(numbers@.update(j as int, key), origin),
                moves_within(origin, 0, i + 1),
                forall|a: int, b: int|
                    0 <= a <= b <= i && a != j && b != j ==> numbers@[a] <= numbers@[b],
                forall|b: int| j < b <= i ==> key < numbers@[b],
            decreases j,
        {
            proof {
                origin = swapped(origin, j - 1, j as int);
            }
            numbers[j] = numbers[j - 1];
            j -= 1;
        }

        numbers[j] = key;
        i += 1;
    }

    proof {
        assert(sorted(numbers@));
        assert(moves_within(origin, 0, n as int));
        lemma_arrangement_keeps_elements(numbers@, old(numbers)@, origin);
        if sorted(old(numbers)@) || old(numbers)@.len() <= 1 {
            lemma_sort_is_unique(numbers@, old(numbers)@);
        }
    }
}

} // verus!
