use std::cmp::Ordering;
use vstd::prelude::*;
use crate::error::Error;
use crate::input::Input;
use crate::traits::{ToOutput, ParseInline, Parse, output};
use crate::ordering::{ByteOrd, SignificantLength, lex_order};
use crate::u63::{u63_output, u63_parse, u63_bound, write_u63, parse_u63, lemma_u63_roundtrip, lemma_u63_canonical, lemma_u63_order, lemma_u63_num};

verus! {

/// Decode a length prefix, then `n` more bytes of the input, as the pair of the
/// length and those bytes.
pub open spec fn lp_frame(s: Seq<u8>) -> Result<Seq<u8>, Error> {
    match u63_parse(s) {
        Ok(n) => if n > usize::MAX {
            Err(Error::UnsupportedLength)
        } else if s.len() < 8 + n {
            Err(Error::EndOfInput)
        } else {
            Ok(s.subrange(8, 8int + n))
        },
        Err(e) => Err(e),
    }
}

/// A byte string that fits in a length prefix.
pub open spec fn lp_fits(b: Seq<u8>) -> bool {
    b.len() < u63_bound() && b.len() <= usize::MAX
}

/// The length prefix of `b`, then `b`.
pub open spec fn lp_output(b: Seq<u8>) -> Seq<u8> {
    u63_output(b.len()) + b
}

/// Framing a fitting byte string and reading the frame back gives the bytes.
pub proof fn lemma_lp_frame_roundtrip(b: Seq<u8>, rest: Seq<u8>)
    requires
        lp_fits(b),
    ensures
        lp_frame(lp_output(b) + rest) == Ok::<Seq<u8>, Error>(b),
        lp_output(b).len() == 8 + b.len(),
{
    let s = lp_output(b) + rest;
    assert(s =~= u63_output(b.len()) + (b + rest));
    lemma_u63_roundtrip(b.len(), b + rest);
    assert(s.subrange(8, 8 + b.len() as int) =~= b);
}

/// A frame that reads back is the framing of its bytes.
pub proof fn lemma_lp_frame_canonical(s: Seq<u8>)
    ensures
        lp_frame(s) matches Ok(b) ==> lp_fits(b) && s.len() >= 8 + b.len() && s.take(8int + b.len()) == lp_output(b),
{
    lemma_u63_canonical(s);
    if let Ok(b) = lp_frame(s) {
        assert(s.take(8int + b.len()) =~= s.take(8) + s.subrange(8, 8 + b.len() as int));
    }
}

/// Read a length prefix and the bytes it frames.
pub fn parse_frame<'a>(input: &mut Input<'a>) -> (r: Result<&'a [u8], Error>)
    ensures
        match lp_frame(old(input).rest()) {
            Ok(b) => r matches Ok(c) && c@ == b && final(input).rest() == old(input).rest().skip(8int + b.len()),
            Err(e) => r == Err::<&'a [u8], Error>(e),
        },
{
    let ghost s = input.rest();
    let n = parse_u63(input)?;
    let c = input.parse_chunk(n)?;
    proof {
        assert(c@ =~= s.subrange(8, 8 + n as int));
        assert(input.rest() =~= s.skip(8 + n as int));
    }
    Ok(c)
}

/// A value whose encoding is preceded by its length, so that any value can be
/// decoded from the middle of an input.
pub struct Lp<T>(pub T);

impl<T: DeepView> DeepView for Lp<T> {
    type V = T::V;

    open spec fn deep_view(&self) -> T::V {
        self.0.deep_view()
    }
}

impl<T: ToOutput> ToOutput for Lp<T> {
    open spec fn spec_valid(v: T::V) -> bool {
        T::spec_valid(v) && lp_fits(T::spec_output(v))
    }

    open spec fn spec_output(v: T::V) -> Seq<u8> {
        lp_output(T::spec_output(v))
    }

    fn to_output(&self, out: &mut Vec<u8>) {
        let mut data = output(&self.0);
        write_u63(data.len(), out);
        let ghost mid = out@;
        let ghost d = data@;
        out.append(&mut data);
        proof {
            assert(out@ =~= old(out)@ + lp_output(d));
        }
    }
}

impl<T: Parse> ParseInline for Lp<T> {
    open spec fn spec_parse_inline(s: Seq<u8>) -> Result<(T::V, nat), Error> {
        match lp_frame(s) {
            Ok(b) => match T::spec_parse(b) {
                Ok(v) => Ok((v, 8 + b.len())),
                Err(e) => Err(e),
            },
            Err(e) => Err(e),
        }
    }

    fn parse_inline(input: &mut Input) -> (res: Result<Lp<T>, Error>) {
        let ghost s = input.rest();
        proof {
            lemma_lp_frame_canonical(s);
        }
        let c = parse_frame(input)?;
        let v = T::parse(Input::new(c))?;
        Ok(Lp(v))
    }

    proof fn lemma_parse_inline_roundtrip(v: T::V, rest: Seq<u8>) {
        lemma_lp_frame_roundtrip(T::spec_output(v), rest);
        T::lemma_parse_roundtrip(v);
    }

    proof fn lemma_parse_inline_canonical(s: Seq<u8>) {
        lemma_lp_frame_canonical(s);
        if let Ok(b) = lp_frame(s) {
            T::lemma_parse_canonical(b);
        }
    }
}

impl<T: SignificantLength> ByteOrd for Lp<T> {
    fn bytes_cmp(&self, other: &Self) -> (r: Ordering) {
        proof {
            let a = T::spec_output(self.0.deep_view());
            let b = T::spec_output(other.0.deep_view());
            if a.len() == b.len() {
                crate::ordering::lemma_lex_order_prefix(u63_output(a.len()), a, b);
            } else if a.len() < b.len() {
                lemma_u63_order(a.len(), b.len());
                lemma_u63_num(a.len());
                lemma_u63_num(b.len());
                crate::ordering::lemma_lex_order_equal(u63_output(a.len()), u63_output(b.len()));
                crate::ordering::lemma_lex_order_extend(u63_output(a.len()), u63_output(b.len()), a, b);
                T::lemma_length_first(self.0.deep_view(), other.0.deep_view());
            } else {
                lemma_u63_order(b.len(), a.len());
                lemma_u63_num(a.len());
                lemma_u63_num(b.len());
                crate::ordering::lemma_lex_order_equal(u63_output(b.len()), u63_output(a.len()));
                crate::ordering::lemma_lex_order_extend(u63_output(b.len()), u63_output(a.len()), b, a);
                T::lemma_length_first(other.0.deep_view(), self.0.deep_view());
                crate::ordering::lemma_lex_order_flip(a, b);
                crate::ordering::lemma_lex_order_flip(lp_output(a), lp_output(b));
            }
        }
        self.0.bytes_cmp(&other.0)
    }
}

/// A byte string preceded by its length.
pub struct LpBytes(pub Vec<u8>);

impl DeepView for LpBytes {
    type V = Seq<u8>;

    open spec fn deep_view(&self) -> Seq<u8> {
        self.0@
    }
}

impl ToOutput for LpBytes {
    open spec fn spec_valid(v: Seq<u8>) -> bool {
        lp_fits(v)
    }

    open spec fn spec_output(v: Seq<u8>) -> Seq<u8> {
        lp_output(v)
    }

    fn to_output(&self, out: &mut Vec<u8>) {
        write_u63(self.0.len(), out);
        let mut i: usize = 0;
        let ghost mid = out@;
        while i < self.0.len()
            invariant
                i <= self.0@.len(),
                out@ == mid + self.0@.take(i as int),
            decreases self.0@.len() - i,
        {
            out.push(self.0[i]);
            proof {
                assert(self.0@.take(i + 1) =~= self.0@.take(i as int).push(self.0@[i as int]));
            }
            i = i + 1;
        }
        proof {
            assert(self.0@.take(self.0@.len() as int) =~= self.0@);
            assert(out@ =~= old(out)@ + lp_output(self.0@));
        }
    }
}

impl ParseInline for LpBytes {
    open spec fn spec_parse_inline(s: Seq<u8>) -> Result<(Seq<u8>, nat), Error> {
        match lp_frame(s) {
            Ok(b) => Ok((b, 8 + b.len())),
            Err(e) => Err(e),
        }
    }

    fn parse_inline(input: &mut Input) -> (res: Result<LpBytes, Error>) {
        let c = parse_frame(input)?;
        Ok(LpBytes(vstd::slice::slice_to_vec(c)))
    }

    proof fn lemma_parse_inline_roundtrip(v: Seq<u8>, rest: Seq<u8>) {
        lemma_lp_frame_roundtrip(v, rest);
    }

    proof fn lemma_parse_inline_canonical(s: Seq<u8>) {
        lemma_lp_frame_canonical(s);
    }
}

/// Calls `String::from_utf8`, which succeeds exactly when the bytes are valid UTF-8;
/// the string then holds the characters that the bytes encode.
#[verifier::external_body]
fn string_from_utf8(bytes: Vec<u8>) -> (r: Option<String>)
    ensures
        r is Some == vstd::utf8::valid_utf8(bytes@),
        r matches Some(s) ==> s@ == vstd::utf8::decode_utf8(bytes@),
{
    String::from_utf8(bytes).ok()
}

/// A string preceded by the length of its UTF-8 encoding.
pub struct LpString(pub String);

impl DeepView for LpString {
    type V = Seq<char>;

    open spec fn deep_view(&self) -> Seq<char> {
        self.0@
    }
}

impl ToOutput for LpString {
    open spec fn spec_valid(v: Seq<char>) -> bool {
        lp_fits(vstd::utf8::encode_utf8(v))
    }

    open spec fn spec_output(v: Seq<char>) -> Seq<u8> {
        lp_output(vstd::utf8::encode_utf8(v))
    }

    fn to_output(&self, out: &mut Vec<u8>) {
        let bytes = self.0.as_str().as_bytes();
        write_u63(bytes.len(), out);
        let mut i: usize = 0;
        let ghost mid = out@;
        while i < bytes.len()
            invariant
                i <= bytes@.len(),
                out@ == mid + bytes@.take(i as int),
            decreases bytes@.len() - i,
        {
            out.push(bytes[i]);
            proof {
                assert(bytes@.take(i + 1) =~= bytes@.take(i as int).push(bytes@[i as int]));
            }
            i = i + 1;
        }
        proof {
            assert(bytes@.take(bytes@.len() as int) =~= bytes@);
            assert(out@ =~= old(out)@ + lp_output(bytes@));
        }
    }
}

impl ParseInline for LpString {
    open spec fn spec_parse_inline(s: Seq<u8>) -> Result<(Seq<char>, nat), Error> {
        match lp_frame(s) {
            Ok(b) => if vstd::utf8::valid_utf8(b) {
                Ok((vstd::utf8::decode_utf8(b), 8 + b.len()))
            } else {
                Err(Error::Utf8)
            },
            Err(e) => Err(e),
        }
    }

    fn parse_inline(input: &mut Input) -> (res: Result<LpString, Error>) {
        let c = parse_frame(input)?;
        match string_from_utf8(vstd::slice::slice_to_vec(c)) {
            Some(s) => Ok(LpString(s)),
            None => Err(Error::Utf8),
        }
    }

    proof fn lemma_parse_inline_roundtrip(v: Seq<char>, rest: Seq<u8>) {
        lemma_lp_frame_roundtrip(vstd::utf8::encode_utf8(v), rest);
        vstd::utf8::encode_utf8_valid_utf8(v);
        vstd::utf8::encode_utf8_decode_utf8(v);
    }

    proof fn lemma_parse_inline_canonical(s: Seq<u8>) {
        lemma_lp_frame_canonical(s);
        if let Ok(b) = lp_frame(s) {
            if vstd::utf8::valid_utf8(b) {
                vstd::utf8::decode_utf8_encode_utf8(b);
            }
        }
    }
}

/// Items preceded by their count.
pub struct LpVec<T>(pub Vec<T>);

impl<T: DeepView> DeepView for LpVec<T> {
    type V = Seq<T::V>;

    open spec fn deep_view(&self) -> Seq<T::V> {
        self.0.deep_view()
    }
}

impl<T: ToOutput> ToOutput for LpVec<T> {
    open spec fn spec_valid(v: Seq<T::V>) -> bool {
        crate::sequence::all_valid::<T>(v) && v.len() < u63_bound() && v.len() <= usize::MAX
    }

    open spec fn spec_output(v: Seq<T::V>) -> Seq<u8> {
        u63_output(v.len()) + crate::sequence::concat_outputs::<T>(v)
    }

    fn to_output(&self, out: &mut Vec<u8>) {
        proof {
            assert(self.0.deep_view().len() == self.0@.len());
        }
        write_u63(self.0.len(), out);
        let ghost mid = out@;
        crate::sequence::items_to_output(&self.0, out);
        proof {
            assert(out@ =~= old(out)@ + (u63_output(self.0.deep_view().len()) + crate::sequence::concat_outputs::<T>(self.0.deep_view())));
        }
    }
}

impl<T: ParseInline> ParseInline for LpVec<T> {
    open spec fn spec_parse_inline(s: Seq<u8>) -> Result<(Seq<T::V>, nat), Error> {
        match u63_parse(s) {
            Ok(n) => if n > usize::MAX {
                Err(Error::UnsupportedLength)
            } else {
                match crate::sequence::parse_n::<T>(n, s.skip(8)) {
                    Ok((vs, k)) => Ok((vs, 8 + k)),
                    Err(e) => Err(e),
                }
            },
            Err(e) => Err(e),
        }
    }

    fn parse_inline(input: &mut Input) -> (res: Result<LpVec<T>, Error>) {
        let ghost s = input.rest();
        proof {
            crate::sequence::lemma_parse_n_canonical::<T>(u63_parse(s)->Ok_0, s.skip(8));
        }
        let n = parse_u63(input)?;
        let v = crate::sequence::parse_vec_n(input, n)?;
        proof {
            assert(input.rest() =~= s.skip(8int + crate::sequence::parse_n::<T>(n as nat, s.skip(8))->Ok_0.1));
        }
        Ok(LpVec(v))
    }

    proof fn lemma_parse_inline_roundtrip(v: Seq<T::V>, rest: Seq<u8>) {
        let body = crate::sequence::concat_outputs::<T>(v);
        let s = u63_output(v.len()) + body + rest;
        assert(s =~= u63_output(v.len()) + (body + rest));
        lemma_u63_roundtrip(v.len(), body + rest);
        assert(s.skip(8) =~= body + rest);
        crate::sequence::lemma_parse_n_roundtrip::<T>(v, rest);
    }

    proof fn lemma_parse_inline_canonical(s: Seq<u8>) {
        lemma_u63_canonical(s);
        if let Ok(n) = u63_parse(s) {
            crate::sequence::lemma_parse_n_canonical::<T>(n, s.skip(8));
            if let Ok((vs, k)) = crate::sequence::parse_n::<T>(n, s.skip(8)) {
                assert(s.take(8int + k) =~= s.take(8) + s.skip(8).take(k as int));
            }
        }
    }
}

} // verus!
