use std::marker::PhantomData;
use vstd::prelude::*;
use crate::error::Error;
use crate::input::Input;
use crate::traits::{ToOutput, ParseInline};

verus! {

/// Names an object type without holding a value of it; its encoding is empty.
pub struct ObjectMarker<T> {
    object: PhantomData<T>,
}

impl<T> ObjectMarker<T> {
    /// The marker; it encodes to nothing.
    pub fn new() -> (r: Self)
        ensures
            <ObjectMarker<T> as ToOutput>::spec_output(r.deep_view()) == Seq::<u8>::empty(),
    {
        ObjectMarker { object: PhantomData }
    }
}

impl<T> DeepView for ObjectMarker<T> {
    type V = ();

    open spec fn deep_view(&self) -> () {
        ()
    }
}

impl<T> ToOutput for ObjectMarker<T> {
    open spec fn spec_valid(v: ()) -> bool {
        true
    }

    open spec fn spec_output(v: ()) -> Seq<u8> {
        Seq::empty()
    }

    fn to_output(&self, output: &mut Vec<u8>) {
        proof {
            assert(output@ =~= output@ + Seq::<u8>::empty());
        }
    }
}

impl<T> ParseInline for ObjectMarker<T> {
    open spec fn spec_parse_inline(s: Seq<u8>) -> Result<((), nat), Error> {
        Ok(((), 0))
    }

    fn parse_inline(input: &mut Input) -> (res: Result<ObjectMarker<T>, Error>) {
        proof {
            assert(input.rest().skip(0) =~= input.rest());
        }
        Ok(ObjectMarker::new())
    }

    proof fn lemma_parse_inline_roundtrip(v: (), rest: Seq<u8>) {
    }

    proof fn lemma_parse_inline_canonical(s: Seq<u8>) {
        assert(s.take(0) =~= Seq::<u8>::empty());
    }
}

/// A value that is decoded as the wrapped type is, asserting that it refers to no
/// other objects.
pub struct AssertRefless<T>(pub T);

impl<T: DeepView> DeepView for AssertRefless<T> {
    type V = T::V;

    open spec fn deep_view(&self) -> T::V {
        self.0.deep_view()
    }
}

impl<T: ToOutput> ToOutput for AssertRefless<T> {
    open spec fn spec_valid(v: T::V) -> bool {
        T::spec_valid(v)
    }

    open spec fn spec_output(v: T::V) -> Seq<u8> {
        T::spec_output(v)
    }

    fn to_output(&self, output: &mut Vec<u8>) {
        self.0.to_output(output);
    }
}

impl<T: ParseInline> ParseInline for AssertRefless<T> {
    open spec fn spec_parse_inline(s: Seq<u8>) -> Result<(T::V, nat), Error> {
        T::spec_parse_inline(s)
    }

    fn parse_inline(input: &mut Input) -> (res: Result<AssertRefless<T>, Error>) {
        let x = T::parse_inline(input)?;
        Ok(AssertRefless(x))
    }

    proof fn lemma_parse_inline_roundtrip(v: T::V, rest: Seq<u8>) {
        T::lemma_parse_inline_roundtrip(v, rest);
    }

    proof fn lemma_parse_inline_canonical(s: Seq<u8>) {
        T::lemma_parse_inline_canonical(s);
    }
}

} // verus!
