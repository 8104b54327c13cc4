//! Values with several owners.

use vstd::prelude::*;

use std::sync::Arc;

verus! {

/// Another pointer to the same value: `Arc::clone`, which documents that the
/// pointer made is to the same allocation.
#[verifier::external_body]
pub(crate) fn share<T>(value: &Arc<T>) -> (r: Arc<T>)
    ensures
        r == *value,
{
    Arc::clone(value)
}

} // verus!
