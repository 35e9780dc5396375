//! Operations of `Vec` on its allocation. None of them touches the elements;
//! how much room a vector has is left to the allocator and is not modelled.

use vstd::layout::size_of;
use vstd::prelude::*;

verus! {

/// `Vec::capacity`: the room that the vector has, which is never less than
/// what it holds.
#[verifier::external_body]
pub(crate) fn capacity_of<T>(v: &Vec<T>) -> (cap: usize)
    ensures
        cap >= v@.len(),
{
    v.capacity()
}

/// `Vec::reserve_exact`: asks for room for `additional` more elements and
/// leaves the elements as they are. The call panics where the number of
/// elements to make room for is more than a `usize` holds, or where that room
/// takes more than `isize::MAX` bytes; the precondition rules out both.
#[verifier::external_body]
pub(crate) fn reserve_exact_in<T>(v: &mut Vec<T>, additional: usize)
    requires
        old(v)@.len() + additional <= usize::MAX,
        (old(v)@.len() + additional) * size_of::<T>() <= isize::MAX,
    ensures
        final(v)@ == old(v)@,
{
    v.reserve_exact(additional)
}

/// `Vec::shrink_to_fit`: gives room back and leaves the elements as they are.
#[verifier::external_body]
pub(crate) fn shrink_to_fit_in<T>(v: &mut Vec<T>)
    ensures
        final(v)@ == old(v)@,
{
    v.shrink_to_fit()
}

/// `Vec::shrink_to`: gives room back down to a lower bound and leaves the
/// elements as they are.
#[verifier::external_body]
pub(crate) fn shrink_to_in<T>(v: &mut Vec<T>, min_capacity: usize)
    ensures
        final(v)@ == old(v)@,
{
    v.shrink_to(min_capacity)
}

} // verus!
