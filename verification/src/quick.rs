//! Quick sort with Lomuto partitioning around the last element of a range.
//!
//! The pivot is always the last element, so a range that is already in
//! ascending or in descending order splits as unevenly as a range can: one part
//! is empty, and the recursion goes as deep as the range is long. The result
//! is the same sorted sequence all the same.

use vstd::prelude::*;
use crate::order::{
    is_sort_of, lemma_element_within_was_within, lemma_reverse_of_descending_is_sort,
    lemma_same_elements_within_keeps_elements, lemma_same_elements_within_wider,
    lemma_sort_is_unique, lemma_swap_within_keeps_elements, same_elements_within, sorted,
    sorted_descending, sorted_within,
};

verus! {

/// The test that an element is not greater than `bound`.
pub open spec fn at_most(bound: i32) -> spec_fn(i32) -> bool {
    |x: i32| x <= bound
}

/// Partitions the positions `low..=high` of `arr` around the element at
/// `high`, the pivot, and returns the position where the pivot comes to
/// stand.
///
/// The positions `low..high` are scanned once. A boundary starts at `low`;
/// each scanned element that is not greater than the pivot is exchanged with
/// the element at the boundary, and the boundary moves one up. At the end the
/// pivot is exchanged with the element at the boundary. Everything left of
/// the pivot is then not greater than it, and everything right of it is
/// greater. The elements left of the pivot stand in the order in which they
/// stood before.
pub fn partition(arr: &mut [i32], low: usize, high: usize) -> (pivot_index: usize)
    requires
        low <= high < old(arr)@.len(),
    ensures
        low <= pivot_index <= high,
        final(arr)@[pivot_index as int] == old(arr)@[high as int],
        forall|k: int| low <= k < pivot_index ==> final(arr)@[k] <= old(arr)@[high as int],
        forall|k: int| pivot_index < k <= high ==> final(arr)@[k] > old(arr)@[high as int],
        final(arr)@.subrange(low as int, pivot_index as int) == old(arr)@.subrange(
            low as int,
            high as int,
        ).filter(at_most(old(arr)@[high as int])),
        same_elements_within(final(arr)@, old(arr)@, low as int, high + 1),
        final(arr)@.to_multiset() == old(arr)@.to_multiset(),
{
    let ghost n = arr@.len();
    assert(n == arr.len());
    let pivot = arr[high];
    let mut i = low;

    for j in low..high
        invariant
            low <= i <= j,
            high < n == arr@.len() == old(arr)@.len(),
            arr@[high as int] == pivot == old(arr)@[high as int],
            forall|k: int| low <= k < i ==> arr@[k] <= pivot,
            forall|k: int| i <= k < j ==> arr@[k] > pivot,
            forall|k: int| j <= k <= high ==> arr@[k] == old(arr)@[k],
            arr@.subrange(low as int, i as int) == old(arr)@.subrange(low as int, j as int).filter(
                at_most(pivot),
            ),
            same_elements_within(arr@, old(arr)@, low as int, high + 1),
    {
        proof {
            let scanned = old(arr)@.subrange(low as int, j as int);
            assert(old(arr)@.subrange(low as int, j + 1) =~= scanned.push(old(arr)@[j as int]));
            scanned.lemma_filter_push(old(arr)@[j as int], at_most(pivot));
        }
        if arr[j] <= pivot {
            proof {
                lemma_swap_within_keeps_elements(arr@, i as int, j as int, low as int, high + 1);
            }
            let ghost kept = arr@.subrange(low as int, i as int);
            arr.swap(i, j);
            i += 1;
            assert(arr@.subrange(low as int, i as int) =~= kept.push(old(arr)@[j as int]));
        }
    }

    proof {
        lemma_swap_within_keeps_elements(arr@, i as int, high as int, low as int, high + 1);
    }
    let ghost kept = arr@.subrange(low as int, i as int);
    arr.swap(i, high);
    assert(arr@.subrange(low as int, i as int) =~= kept);

    proof {
        lemma_same_elements_within_keeps_elements(arr@, old(arr)@, low as int, high + 1);
    }
    i
}

/// Sorts the positions `low..=high` of `arr`: partitions them, then sorts
/// the part left of the pivot and the part right of it. A range of fewer
/// than two positions is left as it is.
pub fn quick_sort_helper(arr: &mut [i32], low: usize, high: usize)
    requires
        low < high ==> high < old(arr)@.len(),
    ensures
        sorted_within(final(arr)@, low as int, high + 1),
        low < high ==> same_elements_within(final(arr)@, old(arr)@, low as int, high + 1),
        low >= high ==> final(arr)@ == old(arr)@,
        final(arr)@.to_multiset() == old(arr)@.to_multiset(),
    decreases
        if low < high {
            high - low
        } else {
            0
        },
{
    if low < high {
        assert(arr@.len() == arr.len());
        let pivot_index = partition(arr, low, high);
        let ghost parted = arr@;
        let ghost pivot = parted[pivot_index as int];

        if pivot_index > low {
            quick_sort_helper(arr, low, pivot_index - 1);
        }
        let ghost half = arr@;
        quick_sort_helper(arr, pivot_index + 1, high);

        proof {
            let p = pivot_index as int;
            assert(same_elements_within(half, parted, low as int, p)) by {
                if low + 1 >= p {
                    assert(half.subrange(low as int, p) =~= parted.subrange(low as int, p));
                }
            }
            assert(same_elements_within(arr@, half, p + 1, high + 1)) by {
                if p + 1 >= high {
                    assert(arr@.subrange(p + 1, high + 1) =~= half.subrange(p + 1, high + 1));
                }
            }
            assert forall|k: int| low <= k < p implies arr@[k] <= pivot by {
                lemma_element_within_was_within(half, parted, low as int, p, k);
            }
            assert forall|k: int| p < k <= high implies arr@[k] > pivot by {
                lemma_element_within_was_within(arr@, half, p + 1, high + 1, k);
            }
            lemma_same_elements_within_wider(half, parted, low as int, p, low as int, high + 1);
            lemma_same_elements_within_wider(arr@, half, p + 1, high + 1, low as int, high + 1);
            lemma_same_elements_within_keeps_elements(arr@, old(arr)@, low as int, high + 1);
        }
    }
}

/// Sorts `numbers` in place, ascending, by quick sort.
///
/// No second sequence is used. Input that is already sorted, ascending or
/// descending, is the worst case for the time taken and is sorted like any
/// other.
pub fn quick_sort(numbers: &mut [i32])
    ensures
        is_sort_of(final(numbers)@, old(numbers)@),
        sorted(old(numbers)@) ==> final(numbers)@ == old(numbers)@,
        sorted_descending(old(numbers)@) ==> final(numbers)@ == old(numbers)@.reverse(),
        old(numbers)@.len() <= 1 ==> final(numbers)@ == old(numbers)@,
{
    let len = numbers.len();
    if len <= 1 {
        return;
    }
    quick_sort_helper(numbers, 0, len - 1);
    proof {
        if sorted(old(numbers)@) {
            lemma_sort_is_unique(numbers@, old(numbers)@);
        }
        if sorted_descending(old(numbers)@) {
            lemma_reverse_of_descending_is_sort(old(numbers)@);
            lemma_sort_is_unique(numbers@, old(numbers)@.reverse());
        }
    }
}

} // verus!
