//! Shared ownership of values that several items of a theory refer to.

use std::rc::Rc;
use vstd::prelude::*;

verus! {

/// Hands out another reference to a shared value. This is `Rc::clone` of
/// the standard library: the new reference points to the value that the
/// given one points to.
#[verifier::external_body]
pub(crate) fn share<T>(value: &Rc<T>) -> (r: Rc<T>)
    ensures
        r == *value,
{
    value.clone()
}

/// Whether two shared references point to the same allocation. This is
/// `Rc::ptr_eq` of the standard library. One allocation holds one value;
/// nothing is said of different allocations, whose values may be equal
/// all the same.
#[verifier::external_body]
pub(crate) fn same_allocation<T>(a: &Rc<T>, b: &Rc<T>) -> (r: bool)
    ensures
        r ==> *a == *b,
{
    Rc::ptr_eq(a, b)
}

} // verus!
