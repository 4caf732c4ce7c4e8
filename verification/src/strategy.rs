//! The five sorts behind one entry point.

use vstd::prelude::*;
use crate::bubble::bubble_sort;
use crate::insertion::insertion_sort;
use crate::merge::merge_sort;
use crate::order::{
    is_sort_of, lemma_reverse_of_descending_is_sort, lemma_sort_is_unique, sorted,
    sorted_descending,
};
use crate::quick::quick_sort;
use crate::selection::selection_sort;
use crate::stability::is_stable_sort_of;

verus! {

/// The sorting algorithms that the library offers.
#[derive(Clone, Copy, Debug, PartialEq, Eq)]
pub enum Algorithm {
    /// Passes of adjacent exchanges, ended by a pass without an exchange.
    Bubble,
    /// A sorted prefix that grows by one inserted element at a time.
    Insertion,
    /// A sorted prefix that grows by the least remaining element at a time.
    Selection,
    /// Halving and merging through one scratch buffer.
    Merge,
    /// Partitioning around the last element of a range.
    Quick,
}

impl Algorithm {
    /// Whether the algorithm keeps elements of equal value in the order they
    /// had: insertion sort and merge sort do.
    pub open spec fn is_stable(self) -> bool {
        self == Algorithm::Insertion || self == Algorithm::Merge
    }
}

/// Sorts `numbers` in place, ascending, with the algorithm chosen.
///
/// Whatever the algorithm, the result is the one sorted arrangement of the
/// input. With a stable algorithm, equal elements also keep their order.
pub fn sort(algorithm: Algorithm, numbers: &mut [i32])
    ensures
        is_sort_of(final(numbers)@, old(numbers)@),
        algorithm.is_stable() ==> is_stable_sort_of(final(numbers)@, old(numbers)@),
        sorted(old(numbers)@) ==> final(numbers)@ == old(numbers)@,
        sorted_descending(old(numbers)@) ==> final(numbers)@ == old(numbers)@.reverse(),
        old(numbers)@.len() <= 1 ==> final(numbers)@ == old(numbers)@,
{
    match algorithm {
        Algorithm::Bubble => bubble_sort(numbers),
        Algorithm::Insertion => insertion_sort(numbers),
        Algorithm::Selection => selection_sort(numbers),
        Algorithm::Merge => merge_sort(numbers),
        Algorithm::Quick => quick_sort(numbers),
    }
    proof {
        if sorted_descending(old(numbers)@) {
            lemma_reverse_of_descending_is_sort(old(numbers)@);
            lemma_sort_is_unique(numbers@, old(numbers)@.reverse());
        }
    }
}

} // verus!
