use vstd::prelude::*;
use crate::traits::{ToOutput, Niched};

verus! {

/// A value, or its absence with some extra data; encoded as `Option` of the value
/// (the extra data is not encoded).
pub enum ExtraNone<T, E> {
    Present(T),
    Missing(E),
}

impl<T: DeepView, E> DeepView for ExtraNone<T, E> {
    type V = Option<T::V>;

    open spec fn deep_view(&self) -> Option<T::V> {
        match self {
            ExtraNone::Present(x) => Some(x.deep_view()),
            ExtraNone::Missing(_) => None,
        }
    }
}

impl<T, E> ExtraNone<T, E> {
    /// The value, if there is one.
    pub fn as_ref(&self) -> (r: Option<&T>)
        ensures
            match self {
                ExtraNone::Present(x) => r == Some(x),
                ExtraNone::Missing(_) => r is None,
            },
    {
        match self {
            ExtraNone::Present(value) => Some(value),
            ExtraNone::Missing(_) => None,
        }
    }
}

impl<T: Niched, E> ToOutput for ExtraNone<T, E> {
    open spec fn spec_valid(v: Option<T::V>) -> bool {
        <Option<T> as ToOutput>::spec_valid(v)
    }

    open spec fn spec_output(v: Option<T::V>) -> Seq<u8> {
        <Option<T> as ToOutput>::spec_output(v)
    }

    fn to_output(&self, output: &mut Vec<u8>) {
        match self.as_ref() {
            Some(x) => x.to_output(output),
            None => {
                if T::niche_count_exec() >= 1 {
                    let mut n = T::niche(0);
                    output.append(&mut n);
                } else {
                    proof {
                        assert(output@ =~= output@ + Seq::<u8>::empty());
                    }
                }
            },
        }
    }
}

} // verus!
