//! Parts of the standard library that the primitives call, with what is relied on of each.

use std::collections::VecDeque;
use std::sync::Arc;

use vstd::prelude::*;

verus! {

/// Declares `std::task::Waker`, which the library only stores and hands back.
#[verifier::external_type_specification]
#[verifier::external_body]
pub struct ExWaker(std::task::Waker);

/// Calls `Vec::capacity`: the number of elements that `vec` can hold without reallocating.
///
/// Claims only that the vector has room for what it holds. How much more it has is up to the
/// allocator and left open.
#[verifier::external_body]
pub(crate) fn vec_capacity<A>(vec: &Vec<A>) -> (capacity: usize)
    ensures
        capacity >= vec@.len(),
{
    vec.capacity()
}

/// Calls `VecDeque::capacity`: the number of elements that `deque` can hold without reallocating.
///
/// Claims only that the deque has room for what it holds. How much more it has is up to the
/// allocator and left open.
#[verifier::external_body]
pub(crate) fn deque_capacity<A>(deque: &VecDeque<A>) -> (capacity: usize)
    ensures
        capacity >= deque@.len(),
{
    deque.capacity()
}

/// Calls `VecDeque::shrink_to`: gives allocated room back, down to a lower bound.
///
/// Claims that the elements stay as they are. The capacity that results is up to the allocator and
/// left open.
#[verifier::external_body]
pub(crate) fn deque_shrink_to<A>(deque: &mut VecDeque<A>, min_capacity: usize)
    ensures
        final(deque)@ == old(deque)@,
{
    deque.shrink_to(min_capacity)
}

/// Calls `Arc::try_unwrap`: moves the value out of `arc` when no other reference to it is left.
///
/// Claims that the value or the unchanged reference comes back. Which of the two depends on the
/// references held elsewhere and is left open.
#[verifier::external_body]
pub(crate) fn arc_try_unwrap<A>(arc: Arc<A>) -> (unwrapped: Result<A, Arc<A>>)
    ensures
        match unwrapped {
            Ok(value) => value == *arc,
            Err(shared) => shared == arc,
        },
{
    Arc::try_unwrap(arc)
}

} // verus!
