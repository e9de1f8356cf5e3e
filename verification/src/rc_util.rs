use vstd::prelude::*;
use std::rc::Rc;
use std::sync::Arc;

verus! {

/// `Rc::clone`: another pointer to the same allocation, so the clone holds the
/// same value.
#[verifier::external_body]
pub(crate) fn clone_rc<T>(value: &Rc<T>) -> (r: Rc<T>)
    ensures
        r == *value,
{
    Rc::clone(value)
}

/// `Rc::ptr_eq`: true only where both point to one allocation, which then
/// holds one value. Whether two equal values share an allocation is not stated.
#[verifier::external_body]
pub(crate) fn rc_ptr_eq<T>(a: &Rc<T>, b: &Rc<T>) -> (r: bool)
    ensures
        r ==> *a == *b,
{
    Rc::ptr_eq(a, b)
}

/// `Arc::clone`: another pointer to the same allocation, so the clone holds
/// the same value.
#[verifier::external_body]
pub(crate) fn clone_arc<T>(value: &Arc<T>) -> (r: Arc<T>)
    ensures
        r == *value,
{
    Arc::clone(value)
}

/// A copy of an optional shared value.
pub fn clone_value<T>(value: &Option<Rc<T>>) -> (r: Option<Rc<T>>)
    ensures
        r == *value,
{
    match value {
        Some(v) => Some(clone_rc(v)),
        None => None,
    }
}

/// A copy of an optional shared value.
pub fn clone_arc_value<T>(value: &Option<Arc<T>>) -> (r: Option<Arc<T>>)
    ensures
        r == *value,
{
    match value {
        Some(v) => Some(clone_arc(v)),
        None => None,
    }
}

} // verus!
