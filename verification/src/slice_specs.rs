//! Contracts that verified code takes on trust for standard-library
//! operations on slices.

use vstd::prelude::*;

verus! {

/// Trusted contract of the standard library's `<[T]>::swap`: the call
/// exchanges the elements at positions `a` and `b` and leaves every other
/// position as it was. The standard library panics when either position is
/// out of bounds, so the contract asks for both to be in bounds.
pub assume_specification<E>[ <[E]>::swap ](slice: &mut [E], a: usize, b: usize)
    requires
        a < old(slice)@.len(),
        b < old(slice)@.len(),
    ensures
        final(slice)@ == old(slice)@.update(a as int, old(slice)@[b as int]).update(
            b as int,
            old(slice)@[a as int],
        ),
;

} // verus!
