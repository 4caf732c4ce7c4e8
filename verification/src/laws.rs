//! Laws that hold of every sort of this library, stated over the predicates
//! that the sorts promise of their results.

use vstd::prelude::*;
use crate::order::{
    is_sort_of, lemma_reverse_of_descending_is_sort, lemma_sort_is_unique, sorted,
    sorted_descending,
};
use crate::stability::{
    is_arrangement, is_stable_sort_of, keeps_ties_in_order, lemma_arrangement_keeps_elements,
    moves_within,
};

verus! {

/// A sequence has exactly one sorted arrangement, so any two sorts agree on
/// every input.
pub proof fn law_sorts_agree(input: Seq<i32>, first: Seq<i32>, second: Seq<i32>)
    requires
        is_sort_of(first, input),
        is_sort_of(second, input),
    ensures
        first == second,
{
    lemma_sort_is_unique(first, second);
}

/// Sorting a sequence that is already sorted yields the identical sequence.
pub proof fn law_sorted_input_is_unchanged(input: Seq<i32>, output: Seq<i32>)
    requires
        sorted(input),
        is_sort_of(output, input),
    ensures
        output == input,
{
    lemma_sort_is_unique(output, input);
}

/// Sorting is idempotent: sorting the result of a sort changes nothing.
pub proof fn law_sorting_twice_changes_nothing(input: Seq<i32>, once: Seq<i32>, twice: Seq<i32>)
    requires
        is_sort_of(once, input),
        is_sort_of(twice, once),
    ensures
        twice == once,
{
    lemma_sort_is_unique(twice, once);
}

/// The empty sequence sorts to the empty sequence, and a sequence of one
/// element sorts to itself.
pub proof fn law_short_input_is_unchanged(input: Seq<i32>, output: Seq<i32>)
    requires
        input.len() <= 1,
        is_sort_of(output, input),
    ensures
        output == input,
{
    lemma_sort_is_unique(output, input);
}

/// Sorting a sequence that is in descending order yields that sequence read
/// backwards.
pub proof fn law_descending_input_is_reversed(input: Seq<i32>, output: Seq<i32>)
    requires
        sorted_descending(input),
        is_sort_of(output, input),
    ensures
        output == input.reverse(),
{
    lemma_reverse_of_descending_is_sort(input);
    lemma_sort_is_unique(output, input.reverse());
}

/// A stable sort is a sort: it neither adds nor loses an element.
pub proof fn law_stable_sort_is_sort(input: Seq<i32>, output: Seq<i32>)
    requires
        is_stable_sort_of(output, input),
    ensures
        is_sort_of(output, input),
{
    let origin = choose|origin: Seq<int>|
        {
            &&& #[trigger] is_arrangement(output, input, origin)
            &&& keeps_ties_in_order(output, origin)
            &&& moves_within(origin, 0, input.len() as int)
        };
    lemma_arrangement_keeps_elements(output, input, origin);
}

/// Stability, element by element: of two equal elements of the output of a
/// stable sort, the one that stands first came from the earlier position of
/// the input.
pub proof fn law_stable_sort_keeps_ties(input: Seq<i32>, output: Seq<i32>)
    requires
        is_stable_sort_of(output, input),
    ensures
        exists|origin: Seq<int>|
            {
                &&& #[trigger] is_arrangement(output, input, origin)
                &&& forall|j: int, k: int|
                    0 <= j < k < output.len() && output[j] == output[k] ==> origin[j] < origin[k]
                        && input[origin[j]] == input[origin[k]]
            },
{
    let origin = choose|origin: Seq<int>|
        {
            &&& #[trigger] is_arrangement(output, input, origin)
            &&& keeps_ties_in_order(output, origin)
            &&& moves_within(origin, 0, input.len() as int)
        };
    assert(is_arrangement(output, input, origin));
    assert forall|j: int, k: int|
        0 <= j < k < output.len() && output[j] == output[k] implies origin[j] < origin[k]
        && input[origin[j]] == input[origin[k]] by {
        assert(output[j] == input[origin[j]]);
        assert(output[k] == input[origin[k]]);
    }
}

} // verus!
