//! Sharing what the states of a history hold.
use vstd::prelude::*;
use std::sync::Arc;

verus! {

/// `Arc::clone` of std: another handle to the same value.
#[verifier::external_body]
pub(crate) fn share<T>(a: &Arc<T>) -> (r: Arc<T>)
    ensures
        r == *a,
{
    Arc::clone(a)
}

/// `Arc::make_mut` of std: the value behind the handle, to be changed.
/// Where no other handle shares the value, that is the value itself;
/// where one does, this handle gets a clone of it first. What is written
/// stands behind the handle afterwards.
#[verifier::external_body]
pub(crate) fn make_mut<T: Clone>(a: &mut Arc<T>) -> (r: &mut T)
    ensures
        cloned::<T>(**old(a), *r),
        **final(a) == *final(r),
{
    Arc::make_mut(a)
}

} // verus!
