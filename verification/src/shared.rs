//! Shared-ownership helper for the read-only data every user borrows.

use std::sync::Arc;
use vstd::prelude::*;

verus! {

/// Relies on std's `Arc::clone`: another handle on the same allocation,
/// carrying the same value.
#[verifier::external_body]
pub fn arc_clone<T>(a: &Arc<T>) -> (r: Arc<T>)
    ensures
        r == *a,
{
    Arc::clone(a)
}

} // verus!
