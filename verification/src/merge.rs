//! Merge sort with one scratch buffer shared by every merge step.

use vstd::prelude::*;
use crate::order::{
    is_sort_of, lemma_sort_is_unique, same_elements_within, sorted, sorted_within,
    unchanged_outside,
};
use crate::stability::{
    is_arrangement, is_stable_arrangement_within, is_stable_sort_of, keeps_ties_in_order,
    lemma_arrangement_keeps_elements, lemma_stable_arrangement_keeps_range,
    lemma_stable_then_stable, lemma_unchanged_is_stable, moves_within,
};

verus! {

/// Merges the two adjacent sorted runs `left..=mid` and `mid+1..=right` of
/// `arr` into one sorted run `left..=right`.
///
/// The range is first copied into `buffer` at the same positions and then
/// merged back. Of two equal candidates the one of the left run goes first,
/// so equal elements keep their order.
pub fn merge(arr: &mut [i32], buffer: &mut [i32], left: usize, mid: usize, right: usize)
    requires
        left <= mid <= right,
        right < old(arr)@.len(),
        right < old(buffer)@.len(),
        sorted_within(old(arr)@, left as int, mid + 1),
        sorted_within(old(arr)@, mid + 1, right + 1),
    ensures
        sorted_within(final(arr)@, left as int, right + 1),
        same_elements_within(final(arr)@, old(arr)@, left as int, right + 1),
        final(arr)@.to_multiset() == old(arr)@.to_multiset(),
        is_stable_arrangement_within(final(arr)@, old(arr)@, left as int, right + 1),
        final(buffer)@.len() == old(buffer)@.len(),
        forall|k: int|
            0 <= k < old(buffer)@.len() ==> final(buffer)@[k] == if left <= k <= right {
                old(arr)@[k]
            } else {
                old(buffer)@[k]
            },
{
    let ghost n = arr@.len();
    assert(n == arr.len());
    for c in left..right + 1
        invariant
            right < n == arr@.len(),
            arr@ == old(arr)@,
            buffer@.len() == old(buffer)@.len(),
            right < buffer@.len(),
            forall|k: int|
                0 <= k < buffer@.len() ==> buffer@[k] == if left <= k < c {
                    old(arr)@[k]
                } else {
                    old(buffer)@[k]
                },
    {
        buffer[c] = arr[c];
    }

    let mut i = left;
    let mut j = mid + 1;
    let mut k = left;
    // Where each element merged so far stood before the merge.
    let ghost mut origin: Seq<int> = Seq::new(n, |x: int| x);

    while i <= mid && j <= right
        invariant
            left <= mid <= right < n,
            n == arr@.len() == old(arr)@.len(),
            right < buffer@.len(),
            forall|x: int| left <= x <= right ==> buffer@[x] == old(arr)@[x],
            sorted_within(buffer@, left as int, mid + 1),
            sorted_within(buffer@, mid + 1, right + 1),
            left <= i <= mid + 1,
            mid + 1 <= j <= right + 1,
            k == i + j - mid - 1,
            merged_so_far(
                arr@,
                old(arr)@,
                buffer@,
                origin,
                left as int,
                mid as int,
                right as int,
                i as int,
                j as int,
            ),
        decreases right + mid + 2 - i - j,
    {
        if buffer[i] <= buffer[j] {
            arr[k] = buffer[i];
            proof {
                origin = origin.update(k as int, i as int);
            }
            i += 1;
        } else {
            arr[k] = buffer[j];
            proof {
                origin = origin.update(k as int, j as int);
            }
            j += 1;
        }
        k += 1;
    }

    while i <= mid
        invariant
            left <= mid <= right < n,
            n == arr@.len() == old(arr)@.len(),
            right < buffer@.len(),
            forall|x: int| left <= x <= right ==> buffer@[x] == old(arr)@[x],
            sorted_within(buffer@, left as int, mid + 1),
            sorted_within(buffer@, mid + 1, right + 1),
            left <= i <= mid + 1,
            mid + 1 <= j <= right + 1,
            i <= mid ==> j == right + 1,
            k == i + j - mid - 1,
            merged_so_far(
                arr@,
                old(arr)@,
                buffer@,
                origin,
                left as int,
                mid as int,
                right as int,
                i as int,
                j as int,
            ),
        decreases mid + 1 - i,
    {
        arr[k] = buffer[i];
        proof {
            origin = origin.update(k as int, i as int);
        }
        i += 1;
        k += 1;
    }

    while j <= right
        invariant
            left <= mid <= right < n,
            n == arr@.len() == old(arr)@.len(),
            right < buffer@.len(),
            forall|x: int| left <= x <= right ==> buffer@[x] == old(arr)@[x],
            sorted_within(buffer@, left as int, mid + 1),
            sorted_within(buffer@, mid + 1, right + 1),
            i == mid + 1,
            mid + 1 <= j <= right + 1,
            k == i + j - mid - 1,
            merged_so_far(
                arr@,
                old(arr)@,
                buffer@,
                origin,
                left as int,
                mid as int,
                right as int,
                i as int,
                j as int,
            ),
        decreases right + 1 - j,
    {
        arr[k] = buffer[j];
        proof {
            origin = origin.update(k as int, j as int);
        }
        j += 1;
        k += 1;
    }

    proof {
        assert(is_arrangement(arr@, old(arr)@, origin));
        assert(keeps_ties_in_order(arr@, origin));
        assert(moves_within(origin, left as int, right + 1));
        lemma_arrangement_keeps_elements(arr@, old(arr)@, origin);
        lemma_stable_arrangement_keeps_range(arr@, old(arr)@, left as int, right + 1);
    }
}

/// Sorts the positions `left..=right` of `arr`: splits them at
/// `left + (right - left) / 2`, sorts each part, and merges the two through
/// `buffer`. A range of fewer than two positions is left as it is.
pub fn merge_sort_helper(arr: &mut [i32], buffer: &mut [i32], left: usize, right: usize)
    requires
        left < right ==> right < old(arr)@.len() && right < old(buffer)@.len(),
    ensures
        sorted_within(final(arr)@, left as int, right + 1),
        unchanged_outside(final(arr)@, old(arr)@, left as int, right + 1),
        final(arr)@.to_multiset() == old(arr)@.to_multiset(),
        is_stable_arrangement_within(final(arr)@, old(arr)@, left as int, right + 1),
        unchanged_outside(final(buffer)@, old(buffer)@, left as int, right + 1),
        left >= right ==> final(arr)@ == old(arr)@ && final(buffer)@ == old(buffer)@,
        left < right ==> same_elements_within(final(arr)@, old(arr)@, left as int, right + 1),
        left < right ==> holds_sorted_halves(
            final(buffer)@,
            old(arr)@,
            left as int,
            left + (right - left) / 2,
            right as int,
        ),
    decreases right - left,
{
    if left < right {
        let mid = left + (right - left) / 2;

        merge_sort_helper(arr, buffer, left, mid);
        let ghost first = arr@;
        merge_sort_helper(arr, buffer, mid + 1, right);
        let ghost second = arr@;

        merge(arr, buffer, left, mid, right);

        proof {
            lemma_stable_arrangement_keeps_range(first, old(arr)@, left as int, mid + 1);
            lemma_stable_arrangement_keeps_range(second, first, mid + 1, right + 1);
            assert(buffer@.subrange(left as int, mid + 1) =~= first.subrange(left as int, mid + 1));
            assert(buffer@.subrange(mid + 1, right + 1) =~= second.subrange(mid + 1, right + 1));
            assert(first.subrange(mid + 1, right + 1) =~= old(arr)@.subrange(mid + 1, right + 1));
            lemma_stable_then_stable(
                old(arr)@,
                first,
                second,
                left as int,
                mid + 1,
                mid + 1,
                right + 1,
                left as int,
                right + 1,
            );
            lemma_stable_then_stable(
                old(arr)@,
                second,
                arr@,
                left as int,
                right + 1,
                left as int,
                right + 1,
                left as int,
                right + 1,
            );
            lemma_stable_arrangement_keeps_range(arr@, old(arr)@, left as int, right + 1);
        }
    } else {
        proof {
            lemma_unchanged_is_stable(arr@, left as int, right + 1);
        }
    }
}

/// Sorts `numbers` in place, ascending, by merge sort. Elements of equal
/// value keep the order they had.
///
/// A sequence of two or more elements gets one scratch buffer of its own
/// length, which every merge step uses; a shorter one is returned at once.
pub fn merge_sort(numbers: &mut [i32])
    ensures
        is_sort_of(final(numbers)@, old(numbers)@),
        is_stable_sort_of(final(numbers)@, old(numbers)@),
        sorted(old(numbers)@) ==> final(numbers)@ == old(numbers)@,
        old(numbers)@.len() <= 1 ==> final(numbers)@ == old(numbers)@,
{
    let len = numbers.len();
    if len <= 1 {
        proof {
            lemma_unchanged_is_stable(numbers@, 0, len as int);
        }
        return;
    }
    let mut buffer = vec![0; len];
    merge_sort_helper(numbers, &mut buffer, 0, len - 1);
    proof {
        if sorted(old(numbers)@) {
            lemma_sort_is_unique(numbers@, old(numbers)@);
        }
    }
}

/// What the scratch buffer holds in the positions `left..=right` once they
/// are sorted: the sorted arrangement of what the array held in
/// `left..=mid`, then that of what it held in `mid+1..=right`, as they stood
/// before the last merge.
pub open spec fn holds_sorted_halves(
    buffer: Seq<i32>,
    before: Seq<i32>,
    left: int,
    mid: int,
    right: int,
) -> bool {
    &&& is_sort_of(buffer.subrange(left, mid + 1), before.subrange(left, mid + 1))
    &&& is_sort_of(buffer.subrange(mid + 1, right + 1), before.subrange(mid + 1, right + 1))
}

/// The state of a merge that has taken the positions `left..i` of the left
/// run and `mid+1..j` of the right run out of `buffer` and written them to
/// `arr` from `left` on: `origin` says where each written element came from.
spec fn merged_so_far(
    arr: Seq<i32>,
    before: Seq<i32>,
    buffer: Seq<i32>,
    origin: Seq<int>,
    left: int,
    mid: int,
    right: int,
    i: int,
    j: int,
) -> bool {
    let k = i + j - mid - 1;
    &&& origin.len() == arr.len()
    &&& forall|x: int| 0 <= x < arr.len() && !(left <= x < k) ==> #[trigger] origin[x] == x
    &&& forall|x: int| 0 <= x < arr.len() && !(left <= x <= right) ==> arr[x] == before[x]
    &&& forall|x: int|
        left <= x < k ==> arr[x] == buffer[#[trigger] origin[x]] && (left <= origin[x] < i || mid
            < origin[x] < j)
    &&& sorted_within(arr, left, k)
    &&& forall|x: int, y: int|
        left <= x < y < k ==> #[trigger] origin[x] != #[trigger] origin[y]
    &&& forall|x: int, y: int|
        left <= x < y < k && arr[x] == arr[y] ==> #[trigger] origin[x] < #[trigger] origin[y]
    &&& forall|x: int| left <= x < k && i <= mid ==> #[trigger] arr[x] <= buffer[i]
    &&& forall|x: int| left <= x < k && j <= right ==> #[trigger] arr[x] <= buffer[j]
    &&& forall|x: int|
        left <= x < k && i <= mid && mid < #[trigger] origin[x] ==> arr[x] < buffer[i]
}

} // verus!
