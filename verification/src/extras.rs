use vstd::prelude::*;
use crate::error::Error;
use crate::input::Input;
use crate::traits::ToOutput;

verus! {

/// Extra data carried beside a value; it is not encoded.
pub struct Extras<E>(pub E);

impl<E> DeepView for Extras<E> {
    type V = ();

    open spec fn deep_view(&self) -> () {
        ()
    }
}

impl<E> ToOutput for Extras<E> {
    open spec fn spec_valid(v: ()) -> bool {
        true
    }

    open spec fn spec_output(v: ()) -> Seq<u8> {
        Seq::empty()
    }

    fn to_output(&self, output: &mut Vec<u8>) {
        proof {
            assert(output@ =~= output@ + Seq::<u8>::empty());
        }
    }
}

impl<E: Clone> Extras<E> {
    /// Take the extra data that decoding was given.
    pub fn parse_extra(extra: &E) -> (r: Self)
        ensures
            cloned::<E>(*extra, r.0),
    {
        Extras(extra.clone())
    }
}

/// Extra data that is decoded first and handed, with the outer extra data, to the
/// decoder of what follows.
pub struct InlineExtra<E>(pub E);

impl<E: Clone> InlineExtra<E> {
    /// The pair of the decoded extra data and the outer extra data.
    pub fn map<X>(&self, extra: X) -> (r: (E, X))
        ensures
            cloned::<E>(self.0, r.0),
            r.1 == extra,
    {
        (self.0.clone(), extra)
    }
}

impl<E: DeepView> DeepView for InlineExtra<E> {
    type V = E::V;

    open spec fn deep_view(&self) -> E::V {
        self.0.deep_view()
    }
}

impl<E: ToOutput> ToOutput for InlineExtra<E> {
    open spec fn spec_valid(v: E::V) -> bool {
        E::spec_valid(v)
    }

    open spec fn spec_output(v: E::V) -> Seq<u8> {
        E::spec_output(v)
    }

    fn to_output(&self, output: &mut Vec<u8>) {
        self.0.to_output(output);
    }
}

/// Extra data beside a source that its bytes are fetched from.
pub struct DelayedExtra<E, F>(pub E, pub F);

impl<E, F> DelayedExtra<E, F> {
    /// The source.
    pub fn source(&self) -> (r: &F)
        ensures
            *r == self.1,
    {
        &self.1
    }
}

/// Decoding with extra data that was fetched.
pub trait ParseFetch<E>: Sized {
    /// What decoding all of `s` with the fetched `extra` gives.
    spec fn spec_parse_fetch(s: Seq<u8>, extra: E) -> Result<Self, Error>;

    /// Decode from all of `input`, with the fetched `extra`.
    fn parse_fetch(input: Input, extra: &E) -> (r: Result<Self, Error>)
        ensures
            r == Self::spec_parse_fetch(input.rest(), *extra),
    ;
}

/// Decoding from the front of an input with extra data that was fetched.
pub trait ParseFetchInline<E>: ParseFetch<E> {
    /// What decoding from the front of `s` with the fetched `extra` gives, with the
    /// count of bytes taken.
    spec fn spec_parse_fetch_inline(s: Seq<u8>, extra: E) -> Result<(Self, nat), Error>;

    /// Decode from the front of `input`, with the fetched `extra`.
    fn parse_fetch_inline(input: &mut Input, extra: &E) -> (r: Result<Self, Error>)
        ensures
            match Self::spec_parse_fetch_inline(old(input).rest(), *extra) {
                Ok((v, n)) => r == Ok::<Self, Error>(v) && n <= old(input).rest().len()
                    && final(input).rest() == old(input).rest().skip(n as int),
                Err(e) => r == Err::<Self, Error>(e),
            },
    ;

    /// Decode from the front of `input`, which must then be used up.
    fn parse_fetch_as_inline(input: Input, extra: &E) -> (r: Result<Self, Error>)
        ensures
            match Self::spec_parse_fetch_inline(input.rest(), *extra) {
                Ok((v, n)) => if n == input.rest().len() {
                    r == Ok::<Self, Error>(v)
                } else {
                    r == Err::<Self, Error>(Error::ExtraInputLeft)
                },
                Err(e) => r == Err::<Self, Error>(e),
            },
    {
        let mut input = input;
        let x = Self::parse_fetch_inline(&mut input, extra)?;
        input.empty()?;
        Ok(x)
    }
}

/// Decoding with extra data that stays opaque until it is needed.
pub trait ParseDelayedOpaque<E>: Sized {
    /// What decoding all of `s` with the `extra` data gives.
    spec fn spec_parse_delayed_opaque(s: Seq<u8>, extra: E) -> Result<Self, Error>;

    /// Decode from all of `input`, with the `extra` data.
    fn parse_delayed_opaque(input: Input, extra: &E) -> (r: Result<Self, Error>)
        ensures
            r == Self::spec_parse_delayed_opaque(input.rest(), *extra),
    ;
}

/// A value decoded with fetched extra data.
pub struct FetchExtra<F>(pub F);

impl<F> FetchExtra<F> {
    /// Decode the value from all of `input`.
    pub fn parse<E>(input: Input, extra: &E) -> (r: Result<Self, Error>)
        where
            F: ParseFetch<E>,
        ensures
            match F::spec_parse_fetch(input.rest(), *extra) {
                Ok(v) => r == Ok::<Self, Error>(FetchExtra(v)),
                Err(e) => r == Err::<Self, Error>(e),
            },
    {
        match F::parse_fetch(input, extra) {
            Ok(x) => Ok(FetchExtra(x)),
            Err(e) => Err(e),
        }
    }

    /// Decode the value from the front of `input`.
    pub fn parse_inline<E>(input: &mut Input, extra: &E) -> (r: Result<Self, Error>)
        where
            F: ParseFetchInline<E>,
        ensures
            match F::spec_parse_fetch_inline(old(input).rest(), *extra) {
                Ok((v, n)) => r == Ok::<Self, Error>(FetchExtra(v))
                    && final(input).rest() == old(input).rest().skip(n as int),
                Err(e) => r == Err::<Self, Error>(e),
            },
    {
        match F::parse_fetch_inline(input, extra) {
            Ok(x) => Ok(FetchExtra(x)),
            Err(e) => Err(e),
        }
    }
}

} // verus!
