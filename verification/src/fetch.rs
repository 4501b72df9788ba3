use std::sync::Arc;
use vstd::prelude::*;
use crate::error::Error;
use crate::shared::share;

verus! {

/// A source that produces a value.
pub trait FetchFn {
    /// What is produced.
    type T;

    /// Produce the value.
    fn fetch(&self) -> Result<Self::T, Error>;
}

/// A source that produces a value from a context that it is given.
pub trait ClosureFn<C> {
    /// What is produced.
    type T;

    /// Produce the value from `closure`.
    fn call(&self, closure: &C) -> Result<Self::T, Error>;
}

/// A source that produces a value from a context that it is given.
pub trait ClosureFetch<C> {
    /// What is produced.
    type T;

    /// Produce the value from `closure`.
    fn fetch(&self, closure: &C) -> Result<Self::T, Error>;
}

/// A context together with what produces a value from it is a source.
impl<C, F: ClosureFetch<C>> FetchFn for (C, F) {
    type T = F::T;

    /// Whatever the context's fetch gives back, unchanged.
    fn fetch(&self) -> (r: Result<F::T, Error>)
        ensures
            call_ensures(F::fetch, (&self.1, &self.0), r),
    {
        self.1.fetch(&self.0)
    }
}

/// Pair a context with what produces a value from it.
pub fn closure_fetch<C, F: ClosureFetch<C>>(closure: C, f: F) -> (r: (C, F))
    ensures
        r == (closure, f),
{
    (closure, f)
}

/// A value fetched from a source each time it is asked for. Clones share the source.
pub struct FnFetch<F> {
    fetch: Arc<F>,
}

impl<F> FnFetch<F> {
    /// The source.
    pub closed spec fn source(&self) -> F {
        *self.fetch
    }
}

/// A clone fetches from the same source.
impl<F> Clone for FnFetch<F> {
    fn clone(&self) -> (r: Self)
        ensures
            r.source() == self.source(),
    {
        FnFetch { fetch: share(&self.fetch) }
    }
}

impl<F: FetchFn> FnFetch<F> {
    /// Fetch from `fetch`.
    pub fn new(fetch: F) -> (r: Self)
        ensures
            r.source() == fetch,
    {
        FnFetch { fetch: Arc::new(fetch) }
    }

    /// Fetch the value.
    pub fn fetch(&self) -> (r: Result<F::T, Error>)
        ensures
            call_ensures(F::fetch, (&self.source(),), r),
    {
        (*self.fetch).fetch()
    }
}

/// A value held in memory, fetched by copying.
pub struct Local<T>(pub T);

impl<T> Local<T> {
    /// The value.
    pub fn get(&self) -> (r: Option<&T>)
        ensures
            r == Some(&self.0),
    {
        Some(&self.0)
    }

    /// A copy of the value.
    pub fn fetch_local(&self) -> (r: Option<T>)
        where
            T: Clone,
        ensures
            r matches Some(x) && cloned::<T>(self.0, x),
    {
        Some(self.0.clone())
    }
}

} // verus!
