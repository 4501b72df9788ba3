use std::sync::Arc;
use vstd::prelude::*;

verus! {

/// Calls `<Arc<T> as Clone>::clone`. Its documentation says the clone is another
/// pointer to the same allocation; the claim is only that it points to the same value.
#[verifier::external_body]
pub(crate) fn share<T>(a: &Arc<T>) -> (r: Arc<T>)
    ensures
        r == *a,
{
    a.clone()
}

/// Calls `Arc::unwrap_or_clone`. Its documentation says it gives back the value where
/// no other pointer shares it, and a clone of the value otherwise.
#[verifier::external_body]
pub(crate) fn unwrap_shared<T: Clone>(a: Arc<T>) -> (r: T)
    ensures
        r == *a || cloned::<T>(*a, r),
{
    Arc::unwrap_or_clone(a)
}

} // verus!
