//! Stability: a sort is stable when elements of equal value leave it in the
//! order in which they entered it.
//!
//! Equal integers cannot be told apart by their value, so stability is stated
//! over positions. An *origin map* of an output gives, for each position of
//! the output, the position of the input that its element came from.

use vstd::prelude::*;
use vstd::seq_lib::{to_multiset_build, to_multiset_contains, to_multiset_remove};
use crate::order::{same_elements_within, sorted};

verus! {

/// `origin` accounts for every element of `output`: position `k` of `output`
/// holds the element that stood at position `origin[k]` of `input`, and no
/// position of `input` is used twice.
pub open spec fn is_arrangement(output: Seq<i32>, input: Seq<i32>, origin: Seq<int>) -> bool {
    &&& output.len() == input.len()
    &&& origin.len() == input.len()
    &&& forall|k: int|
        0 <= k < origin.len() ==> 0 <= #[trigger] origin[k] < input.len() && output[k]
            == input[origin[k]]
    &&& forall|j: int, k: int|
        0 <= j < k < origin.len() ==> #[trigger] origin[j] != #[trigger] origin[k]
}

/// Elements of equal value stand in `output` in the order of the positions
/// they came from.
pub open spec fn keeps_ties_in_order(output: Seq<i32>, origin: Seq<int>) -> bool {
    forall|j: int, k: int|
        0 <= j < k < output.len() && output[j] == output[k] ==> #[trigger] origin[j]
            < #[trigger] origin[k]
}

/// Only the positions `lo..hi` take part: an element of that range stays in
/// the range, and every other element stays where it is.
pub open spec fn moves_within(origin: Seq<int>, lo: int, hi: int) -> bool {
    forall|k: int|
        0 <= k < origin.len() ==> if lo <= k < hi {
            lo <= #[trigger] origin[k] < hi
        } else {
            origin[k] == k
        }
}

/// `output` is `input` with the elements at positions `lo..hi` rearranged
/// among themselves, equal values in the order they had.
pub open spec fn is_stable_arrangement_within(
    output: Seq<i32>,
    input: Seq<i32>,
    lo: int,
    hi: int,
) -> bool {
    exists|origin: Seq<int>|
        {
            &&& #[trigger] is_arrangement(output, input, origin)
            &&& keeps_ties_in_order(output, origin)
            &&& moves_within(origin, lo, hi)
        }
}

/// `output` is `input` rearranged, equal values in the order they had.
pub open spec fn is_stable_arrangement(output: Seq<i32>, input: Seq<i32>) -> bool {
    is_stable_arrangement_within(output, input, 0, input.len() as int)
}

/// `output` is the ascending arrangement of `input` in which elements of equal
/// value keep the order they had in `input`.
pub open spec fn is_stable_sort_of(output: Seq<i32>, input: Seq<i32>) -> bool {
    &&& sorted(output)
    &&& is_stable_arrangement(output, input)
}

/// A rearrangement neither adds nor loses an element: whatever an origin map
/// accounts for holds the elements of the input, each as often as the input.
pub proof fn lemma_arrangement_keeps_elements(
    output: Seq<i32>,
    input: Seq<i32>,
    origin: Seq<int>,
)
    requires
        is_arrangement(output, input, origin),
    ensures
        output.to_multiset() == input.to_multiset(),
    decreases output.len(),
{
    if output.len() == 0 {
        assert(output =~= input);
    } else {
        let last = output.len() - 1;
        let p = origin[last];
        let shorter_output = output.drop_last();
        let shorter_input = input.remove(p);
        let shorter_origin = Seq::new(
            last as nat,
            |k: int|
                if origin[k] > p {
                    origin[k] - 1
                } else {
                    origin[k]
                },
        );
        assert forall|k: int| 0 <= k < shorter_origin.len() implies 0
            <= #[trigger] shorter_origin[k] < shorter_input.len() && shorter_output[k]
            == shorter_input[shorter_origin[k]] by {
            assert(origin[k] != origin[last]);
        }
        assert forall|j: int, k: int|
            0 <= j < k < shorter_origin.len() implies #[trigger] shorter_origin[j]
            != #[trigger] shorter_origin[k] by {
            assert(origin[j] != origin[k]);
            assert(origin[j] != origin[last]);
            assert(origin[k] != origin[last]);
        }
        lemma_arrangement_keeps_elements(shorter_output, shorter_input, shorter_origin);
        assert(output =~= shorter_output.push(output[last]));
        to_multiset_build(shorter_output, output[last]);
        to_multiset_remove(input, p);
        to_multiset_contains(input, input[p]);
        assert(input.to_multiset() =~= shorter_input.to_multiset().insert(input[p]));
    }
}

/// What is rearranged within a range holds, in that range, the elements that
/// the range held before.
pub proof fn lemma_stable_arrangement_keeps_range(
    output: Seq<i32>,
    input: Seq<i32>,
    lo: int,
    hi: int,
)
    requires
        is_stable_arrangement_within(output, input, lo, hi),
        0 <= lo <= hi <= input.len(),
    ensures
        same_elements_within(output, input, lo, hi),
{
    let origin = choose|origin: Seq<int>|
        {
            &&& #[trigger] is_arrangement(output, input, origin)
            &&& keeps_ties_in_order(output, origin)
            &&& moves_within(origin, lo, hi)
        };
    let part = Seq::new((hi - lo) as nat, |k: int| origin[k + lo] - lo);
    assert forall|k: int| 0 <= k < part.len() implies 0 <= #[trigger] part[k] < hi - lo
        && output.subrange(lo, hi)[k] == input.subrange(lo, hi)[part[k]] by {
        assert(lo <= origin[k + lo] < hi);
    }
    assert forall|j: int, k: int| 0 <= j < k < part.len() implies #[trigger] part[j]
        != #[trigger] part[k] by {
        assert(origin[j + lo] != origin[k + lo]);
    }
    lemma_arrangement_keeps_elements(output.subrange(lo, hi), input.subrange(lo, hi), part);
    assert forall|k: int| 0 <= k < input.len() && !(lo <= k < hi) implies output[k]
        == input[k] by {
        assert(origin[k] == k);
    }
}

/// Leaving a sequence as it is rearranges it stably within any range.
pub proof fn lemma_unchanged_is_stable(s: Seq<i32>, lo: int, hi: int)
    ensures
        is_stable_arrangement_within(s, s, lo, hi),
{
    let origin = Seq::new(s.len(), |k: int| k);
    assert(is_arrangement(s, s, origin));
    assert(keeps_ties_in_order(s, origin));
    assert(moves_within(origin, lo, hi));
}

/// Two stable rearrangements in a row, each within a part of `lo..hi`, make
/// one stable rearrangement within `lo..hi`.
pub proof fn lemma_stable_then_stable(
    a: Seq<i32>,
    b: Seq<i32>,
    c: Seq<i32>,
    lo1: int,
    hi1: int,
    lo2: int,
    hi2: int,
    lo: int,
    hi: int,
)
    requires
        is_stable_arrangement_within(b, a, lo1, hi1),
        is_stable_arrangement_within(c, b, lo2, hi2),
        lo <= lo1 && hi1 <= hi,
        lo <= lo2 && hi2 <= hi,
    ensures
        is_stable_arrangement_within(c, a, lo, hi),
{
    let first = choose|origin: Seq<int>|
        {
            &&& #[trigger] is_arrangement(b, a, origin)
            &&& keeps_ties_in_order(b, origin)
            &&& moves_within(origin, lo1, hi1)
        };
    let second = choose|origin: Seq<int>|
        {
            &&& #[trigger] is_arrangement(c, b, origin)
            &&& keeps_ties_in_order(c, origin)
            &&& moves_within(origin, lo2, hi2)
        };
    let both = Seq::new(c.len(), |k: int| first[second[k]]);
    assert forall|j: int, k: int| 0 <= j < k < both.len() implies #[trigger] both[j]
        != #[trigger] both[k] by {
        assert(second[j] != second[k]);
    }
    assert(is_arrangement(c, a, both));
    assert forall|j: int, k: int|
        0 <= j < k < c.len() && c[j] == c[k] implies #[trigger] both[j] < #[trigger] both[k] by {
        assert(second[j] < second[k]);
        assert(b[second[j]] == b[second[k]]);
    }
    assert(moves_within(both, lo, hi));
}

} // verus!
