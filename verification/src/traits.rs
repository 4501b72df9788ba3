use vstd::prelude::*;
use crate::error::Error;
use crate::input::Input;

verus! {

/// Values with a byte encoding. The encoding is stated over the value's deep view.
pub trait ToOutput: DeepView {
    /// Which views are values of the type: their encodings decode back to them.
    spec fn spec_valid(v: <Self as DeepView>::V) -> bool;

    /// The bytes that encode `v`.
    spec fn spec_output(v: <Self as DeepView>::V) -> Seq<u8>;

    /// Append the encoding of `self` to `output`.
    fn to_output(&self, output: &mut Vec<u8>)
        ensures
            final(output)@ == old(output)@ + Self::spec_output(self.deep_view()),
    ;
}

/// Values that can be decoded from the front of an input, leaving the rest of it
/// (prefix-free encodings).
pub trait ParseInline: ToOutput + Sized {
    /// Decode a value from the front of `s`; the number is the count of bytes taken.
    spec fn spec_parse_inline(s: Seq<u8>) -> Result<(<Self as DeepView>::V, nat), Error>;

    /// Decode a value from the front of `input`.
    fn parse_inline(input: &mut Input) -> (res: Result<Self, Error>)
        ensures
            match Self::spec_parse_inline(old(input).rest()) {
                Ok((v, n)) => res matches Ok(x) && x.deep_view() == v && n <= old(input).rest().len()
                    && final(input).rest() == old(input).rest().skip(n as int),
                Err(e) => res == Err::<Self, Error>(e),
            },
    ;

    /// Decoding the encoding of a valid value gives the value back and takes exactly
    /// its bytes, whatever follows.
    proof fn lemma_parse_inline_roundtrip(v: <Self as DeepView>::V, rest: Seq<u8>)
        requires
            Self::spec_valid(v),
        ensures
            Self::spec_parse_inline(Self::spec_output(v) + rest) == Ok::<
                (<Self as DeepView>::V, nat),
                Error,
            >((v, Self::spec_output(v).len())),
    ;

    /// Whatever decodes is a valid value whose encoding is exactly the bytes taken.
    proof fn lemma_parse_inline_canonical(s: Seq<u8>)
        ensures
            Self::spec_parse_inline(s) matches Ok((v, n)) ==> {
                &&& Self::spec_valid(v)
                &&& n <= s.len()
                &&& s.take(n as int) == Self::spec_output(v)
            },
    ;
}

/// Values decoded from a whole input (the end of input delimits them).
pub trait Parse: ToOutput + Sized {
    /// Decode a value from all of `s`.
    spec fn spec_parse(s: Seq<u8>) -> Result<<Self as DeepView>::V, Error>;

    /// Decode a value from all of `input`.
    fn parse(input: Input) -> (res: Result<Self, Error>)
        ensures
            match Self::spec_parse(input.rest()) {
                Ok(v) => res matches Ok(x) && x.deep_view() == v,
                Err(e) => res == Err::<Self, Error>(e),
            },
    ;

    /// Decoding the encoding of a valid value gives the value back.
    proof fn lemma_parse_roundtrip(v: <Self as DeepView>::V)
        requires
            Self::spec_valid(v),
        ensures
            Self::spec_parse(Self::spec_output(v)) == Ok::<<Self as DeepView>::V, Error>(v),
    ;

    /// Whatever decodes is a valid value whose encoding is the whole input.
    proof fn lemma_parse_canonical(s: Seq<u8>)
        ensures
            Self::spec_parse(s) matches Ok(v) ==> Self::spec_valid(v) && s == Self::spec_output(v),
    ;
}

/// Inline values with spare encodings ("niches"), all of one length, that no value
/// starts with. `Option<Self>` spends the first niche on `None` and keeps the rest.
pub trait Niched: ParseInline {
    /// How many spare encodings there are.
    spec fn niche_count() -> nat;

    /// The length of every spare encoding.
    spec fn niche_len() -> nat;

    /// The `i`-th spare encoding.
    spec fn spec_niche(i: nat) -> Seq<u8>;

    /// The number of spare encodings.
    fn niche_count_exec() -> (n: usize)
        ensures
            n == Self::niche_count(),
    ;

    /// The `i`-th spare encoding.
    fn niche(i: usize) -> (r: Vec<u8>)
        requires
            i < Self::niche_count(),
        ensures
            r@ == Self::spec_niche(i as nat),
    ;

    /// Every niche has the same length.
    proof fn lemma_niche_len(i: nat)
        requires
            i < Self::niche_count(),
        ensures
            Self::spec_niche(i).len() == Self::niche_len(),
    ;

    /// Niches are pairwise different.
    proof fn lemma_niches_distinct(i: nat, j: nat)
        requires
            i < Self::niche_count(),
            j < Self::niche_count(),
            i != j,
        ensures
            Self::spec_niche(i) != Self::spec_niche(j),
    ;

    /// No valid value's encoding starts with a niche.
    proof fn lemma_niche_not_value(v: <Self as DeepView>::V, i: nat)
        requires
            Self::spec_valid(v),
            i < Self::niche_count(),
        ensures
            Self::niche_len() <= Self::spec_output(v).len(),
            Self::spec_output(v).take(Self::niche_len() as int) != Self::spec_niche(i),
    ;
}

/// Append the encoding of `x` to a fresh vector.
pub fn output<T: ToOutput>(x: &T) -> (r: Vec<u8>)
    ensures
        r@ == T::spec_output(x.deep_view()),
{
    let mut r = Vec::new();
    x.to_output(&mut r);
    proof {
        assert(r@ =~= T::spec_output(x.deep_view()));
    }
    r
}

/// Decode an inline value that must take all of `input`.
pub fn parse_as_inline<T: ParseInline>(input: Input) -> (res: Result<T, Error>)
    ensures
        match T::spec_parse_inline(input.rest()) {
            Ok((v, n)) => if n == input.rest().len() {
                res matches Ok(x) && x.deep_view() == v
            } else {
                res == Err::<T, Error>(Error::ExtraInputLeft)
            },
            Err(e) => res == Err::<T, Error>(e),
        },
{
    let mut input = input;
    let x = T::parse_inline(&mut input)?;
    input.empty()?;
    Ok(x)
}

/// Decode an inline value that must take all of `data`.
pub fn parse_slice<T: ParseInline>(data: &[u8]) -> (res: Result<T, Error>)
    ensures
        match T::spec_parse_inline(data@) {
            Ok((v, n)) => if n == data@.len() {
                res matches Ok(x) && x.deep_view() == v
            } else {
                res == Err::<T, Error>(Error::ExtraInputLeft)
            },
            Err(e) => res == Err::<T, Error>(e),
        },
{
    parse_as_inline(Input::new(data))
}

/// Re-encoding and re-decoding a valid inline value gives it back.
pub proof fn lemma_reparse<T: ParseInline>(v: <T as DeepView>::V)
    requires
        T::spec_valid(v),
    ensures
        T::spec_parse_inline(T::spec_output(v)) == Ok::<(<T as DeepView>::V, nat), Error>(
            (v, T::spec_output(v).len()),
        ),
{
    T::lemma_parse_inline_roundtrip(v, Seq::empty());
    assert(T::spec_output(v) + Seq::<u8>::empty() =~= T::spec_output(v));
}

} // verus!
