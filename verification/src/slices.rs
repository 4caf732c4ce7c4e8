//! The one slice operation of the standard library that the sorts rely on
//! and that is taken on trust.

use vstd::prelude::*;

verus! {

/// Contract assumed of `<[T]>::swap` of the standard library: with both
/// positions in bounds it exchanges the two elements and leaves every other
/// element where it was. The standard library panics on a position out of
/// bounds, so those are excluded.
pub assume_specification<T>[ <[T]>::swap ](slice: &mut [T], a: usize, b: usize)
    requires
        a < old(slice)@.len(),
        b < old(slice)@.len(),
    ensures
        final(slice)@ == old(slice)@.update(a as int, old(slice)@[b as int]).update(
            b as int,
            old(slice)@[a as int],
        ),
;

} // verus!
