//! Handles on values that several heaps hold in common.

use vstd::prelude::*;
use std::sync::Arc;

verus! {

/// `std::sync::Arc::clone`: the handle that it returns points at the value
/// that `handle` points at, so the two are equal.
#[verifier::external_body]
pub(crate) fn another<T>(handle: &Arc<T>) -> (r: Arc<T>)
    ensures
        r == *handle,
{
    Arc::clone(handle)
}

} // verus!
