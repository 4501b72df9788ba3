use vstd::prelude::*;
use crate::error::Error;
use crate::input::Input;
use crate::primitives::zeros;
use crate::traits::{ToOutput, ParseInline, Niched};

verus! {

/// Types whose valid values all have encodings of one length.
pub trait Size: ToOutput {
    /// The length of every encoding.
    spec fn spec_size() -> nat;

    /// The length of every encoding.
    fn size() -> (n: usize)
        ensures
            n == Self::spec_size(),
    ;

    /// A valid value's encoding has the fixed length.
    proof fn lemma_size(v: Self::V)
        requires
            Self::spec_valid(v),
        ensures
            Self::spec_output(v).len() == Self::spec_size(),
    ;
}

/// Fixed-size types without spare encodings. In the spare encodings of a pair that
/// starts with one, its place is filled with zero bytes.
pub trait ZeroFill: Size {}

impl Size for u8 {
    open spec fn spec_size() -> nat {
        1
    }

    fn size() -> (n: usize) {
        1
    }

    proof fn lemma_size(v: u8) {
    }
}

impl ZeroFill for u8 {}

impl Size for bool {
    open spec fn spec_size() -> nat {
        1
    }

    fn size() -> (n: usize) {
        1
    }

    proof fn lemma_size(v: bool) {
    }
}

impl<const N: usize> Size for [u8; N] {
    open spec fn spec_size() -> nat {
        N as nat
    }

    fn size() -> (n: usize) {
        N
    }

    proof fn lemma_size(v: Seq<u8>) {
    }
}

impl<const N: usize> ZeroFill for [u8; N] {}

/// A pair is encoded as its first part, then its second.
impl<A: ToOutput, B: ToOutput> ToOutput for (A, B) {
    open spec fn spec_valid(v: (A::V, B::V)) -> bool {
        A::spec_valid(v.0) && B::spec_valid(v.1)
    }

    open spec fn spec_output(v: (A::V, B::V)) -> Seq<u8> {
        A::spec_output(v.0) + B::spec_output(v.1)
    }

    fn to_output(&self, output: &mut Vec<u8>) {
        self.0.to_output(output);
        self.1.to_output(output);
        proof {
            assert(output@ =~= old(output)@ + (A::spec_output(self.0.deep_view()) + B::spec_output(self.1.deep_view())));
        }
    }
}

impl<A: ParseInline, B: ParseInline> ParseInline for (A, B) {
    open spec fn spec_parse_inline(s: Seq<u8>) -> Result<((A::V, B::V), nat), Error> {
        match A::spec_parse_inline(s) {
            Ok((a, n)) => match B::spec_parse_inline(s.skip(n as int)) {
                Ok((b, k)) => Ok(((a, b), n + k)),
                Err(e) => Err(e),
            },
            Err(e) => Err(e),
        }
    }

    fn parse_inline(input: &mut Input) -> (res: Result<(A, B), Error>) {
        let ghost s = input.rest();
        proof {
            A::lemma_parse_inline_canonical(s);
        }
        let a = A::parse_inline(input)?;
        let ghost n = A::spec_parse_inline(s)->Ok_0.1;
        let ghost t = input.rest();
        proof {
            B::lemma_parse_inline_canonical(t);
        }
        let b = B::parse_inline(input)?;
        proof {
            let k = B::spec_parse_inline(t)->Ok_0.1;
            assert(input.rest() =~= s.skip((n + k) as int));
        }
        Ok((a, b))
    }

    proof fn lemma_parse_inline_roundtrip(v: (A::V, B::V), rest: Seq<u8>) {
        let oa = A::spec_output(v.0);
        let ob = B::spec_output(v.1);
        assert(oa + ob + rest =~= oa + (ob + rest));
        A::lemma_parse_inline_roundtrip(v.0, ob + rest);
        assert((oa + (ob + rest)).skip(oa.len() as int) =~= ob + rest);
        B::lemma_parse_inline_roundtrip(v.1, rest);
    }

    proof fn lemma_parse_inline_canonical(s: Seq<u8>) {
        A::lemma_parse_inline_canonical(s);
        if let Ok((a, n)) = A::spec_parse_inline(s) {
            B::lemma_parse_inline_canonical(s.skip(n as int));
            if let Ok((b, k)) = B::spec_parse_inline(s.skip(n as int)) {
                assert(s.take((n + k) as int) =~= s.take(n as int) + s.skip(n as int).take(k as int));
            }
        }
    }
}

/// The spare encodings of a pair whose first part has none: zero bytes in place of
/// the first part, then a spare encoding of the second.
impl<A: ZeroFill + ParseInline, B: Niched> Niched for (A, B) {
    open spec fn niche_count() -> nat {
        B::niche_count()
    }

    open spec fn niche_len() -> nat {
        A::spec_size() + B::niche_len()
    }

    open spec fn spec_niche(i: nat) -> Seq<u8> {
        zeros(A::spec_size()) + B::spec_niche(i)
    }

    fn niche_count_exec() -> (n: usize) {
        B::niche_count_exec()
    }

    fn niche(i: usize) -> (r: Vec<u8>) {
        let mut r: Vec<u8> = Vec::new();
        let size = A::size();
        let mut j: usize = 0;
        while j < size
            invariant
                j <= size,
                size == A::spec_size(),
                r@ == zeros(j as nat),
            decreases size - j,
        {
            r.push(0);
            j = j + 1;
            proof {
                assert(r@ =~= zeros(j as nat));
            }
        }
        let mut n = B::niche(i);
        r.append(&mut n);
        r
    }

    proof fn lemma_niche_len(i: nat) {
        B::lemma_niche_len(i);
    }

    proof fn lemma_niches_distinct(i: nat, j: nat) {
        B::lemma_niches_distinct(i, j);
        let a = zeros(A::spec_size()) + B::spec_niche(i);
        let b = zeros(A::spec_size()) + B::spec_niche(j);
        if a == b {
            assert(B::spec_niche(i) =~= a.skip(A::spec_size() as int));
            assert(B::spec_niche(j) =~= b.skip(A::spec_size() as int));
        }
    }

    proof fn lemma_niche_not_value(v: (A::V, B::V), i: nat) {
        A::lemma_size(v.0);
        B::lemma_niche_not_value(v.1, i);
        let oa = A::spec_output(v.0);
        let ob = B::spec_output(v.1);
        let t = (oa + ob).take((A::spec_size() + B::niche_len()) as int);
        assert(t =~= oa + ob.take(B::niche_len() as int));
        if t == zeros(A::spec_size()) + B::spec_niche(i) {
            assert(ob.take(B::niche_len() as int) =~= t.skip(A::spec_size() as int));
            assert(B::spec_niche(i) =~= (zeros(A::spec_size()) + B::spec_niche(i)).skip(A::spec_size() as int));
        }
    }
}

} // verus!
