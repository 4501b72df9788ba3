use vstd::prelude::*;
use crate::error::Error;
use crate::input::Input;
use crate::traits::{ToOutput, ParseInline, Niched};

verus! {

impl ToOutput for u8 {
    open spec fn spec_valid(v: u8) -> bool {
        true
    }

    open spec fn spec_output(v: u8) -> Seq<u8> {
        seq![v]
    }

    fn to_output(&self, output: &mut Vec<u8>) {
        output.push(*self);
    }
}

impl ParseInline for u8 {
    open spec fn spec_parse_inline(s: Seq<u8>) -> Result<(u8, nat), Error> {
        if s.len() == 0 {
            Err(Error::EndOfInput)
        } else {
            Ok((s[0], 1))
        }
    }

    fn parse_inline(input: &mut Input) -> (res: Result<u8, Error>) {
        input.parse_u8()
    }

    proof fn lemma_parse_inline_roundtrip(v: u8, rest: Seq<u8>) {
        assert((seq![v] + rest)[0] == v);
    }

    proof fn lemma_parse_inline_canonical(s: Seq<u8>) {
        if s.len() > 0 {
            assert(s.take(1) =~= seq![s[0]]);
        }
    }
}

} // verus!

verus! {

impl ToOutput for bool {
    open spec fn spec_valid(v: bool) -> bool {
        true
    }

    open spec fn spec_output(v: bool) -> Seq<u8> {
        if v {
            seq![1u8]
        } else {
            seq![0u8]
        }
    }

    fn to_output(&self, output: &mut Vec<u8>) {
        if *self {
            output.push(1);
        } else {
            output.push(0);
        }
    }
}

impl ParseInline for bool {
    open spec fn spec_parse_inline(s: Seq<u8>) -> Result<(bool, nat), Error> {
        if s.len() == 0 {
            Err(Error::EndOfInput)
        } else if s[0] == 0 {
            Ok((false, 1))
        } else if s[0] == 1 {
            Ok((true, 1))
        } else {
            Err(Error::OutOfBounds)
        }
    }

    fn parse_inline(input: &mut Input) -> (res: Result<bool, Error>) {
        let b = input.parse_u8()?;
        if b == 0 {
            Ok(false)
        } else if b == 1 {
            Ok(true)
        } else {
            Err(Error::OutOfBounds)
        }
    }

    proof fn lemma_parse_inline_roundtrip(v: bool, rest: Seq<u8>) {
        let s = Self::spec_output(v) + rest;
        assert(s[0] == Self::spec_output(v)[0]);
    }

    proof fn lemma_parse_inline_canonical(s: Seq<u8>) {
        if s.len() > 0 {
            assert(s.take(1) =~= seq![s[0]]);
        }
    }
}

impl Niched for bool {
    /// Bytes `2..=255` are spare.
    open spec fn niche_count() -> nat {
        254
    }

    open spec fn niche_len() -> nat {
        1
    }

    open spec fn spec_niche(i: nat) -> Seq<u8> {
        seq![(2 + i) as u8]
    }

    fn niche_count_exec() -> (n: usize) {
        254
    }

    fn niche(i: usize) -> (r: Vec<u8>) {
        let mut r = Vec::new();
        r.push((2 + i) as u8);
        proof {
            assert(r@ =~= Self::spec_niche(i as nat));
        }
        r
    }

    proof fn lemma_niche_len(i: nat) {
    }

    proof fn lemma_niches_distinct(i: nat, j: nat) {
        assert(Self::spec_niche(i)[0] != Self::spec_niche(j)[0]);
    }

    proof fn lemma_niche_not_value(v: bool, i: nat) {
        assert(Self::spec_output(v).take(1)[0] != Self::spec_niche(i)[0]);
    }
}

/// Numbering of enum variants carried by a `bool`.
pub trait UsizeTag: Sized {
    /// The variant number of `self`.
    spec fn spec_to_usize(&self) -> nat;

    /// The largest variant number.
    spec fn spec_max_tag() -> nat;

    /// The value with variant number `n`.
    fn from_usize(n: usize) -> (r: Self)
        requires
            n <= Self::spec_max_tag(),
        ensures
            r.spec_to_usize() == n,
    ;

    /// The variant number of `self`.
    fn to_usize(&self) -> (n: usize)
        ensures
            n == self.spec_to_usize(),
    ;

    /// The variant number of `self`, when it has one.
    fn try_to_usize(&self) -> (n: Option<usize>)
        ensures
            n == Some(self.spec_to_usize() as usize),
    ;
}

impl UsizeTag for bool {
    open spec fn spec_to_usize(&self) -> nat {
        if *self {
            1
        } else {
            0
        }
    }

    open spec fn spec_max_tag() -> nat {
        1
    }

    fn from_usize(n: usize) -> (r: bool) {
        n == 1
    }

    fn to_usize(&self) -> (n: usize) {
        if *self {
            1
        } else {
            0
        }
    }

    fn try_to_usize(&self) -> (n: Option<usize>) {
        Some(self.to_usize())
    }
}

impl ToOutput for () {
    open spec fn spec_valid(v: ()) -> bool {
        true
    }

    open spec fn spec_output(v: ()) -> Seq<u8> {
        Seq::empty()
    }

    fn to_output(&self, output: &mut Vec<u8>) {
        proof {
            assert(output@ =~= output@ + Seq::<u8>::empty());
        }
    }
}

impl ParseInline for () {
    open spec fn spec_parse_inline(s: Seq<u8>) -> Result<((), nat), Error> {
        Ok(((), 0))
    }

    fn parse_inline(input: &mut Input) -> (res: Result<(), Error>) {
        proof {
            assert(input.rest() =~= input.rest().skip(0));
        }
        Ok(())
    }

    proof fn lemma_parse_inline_roundtrip(v: (), rest: Seq<u8>) {
    }

    proof fn lemma_parse_inline_canonical(s: Seq<u8>) {
        assert(s.take(0) =~= Seq::<u8>::empty());
    }
}

/// The single byte `0xff`; prefixed to values that need an explicit `Some` tag.
#[derive(Debug, Clone, Copy, PartialEq, Eq, Structural)]
pub struct Ff;

impl DeepView for Ff {
    type V = Ff;

    open spec fn deep_view(&self) -> Ff {
        *self
    }
}

impl ToOutput for Ff {
    open spec fn spec_valid(v: Ff) -> bool {
        true
    }

    open spec fn spec_output(v: Ff) -> Seq<u8> {
        seq![0xffu8]
    }

    fn to_output(&self, output: &mut Vec<u8>) {
        output.push(0xff);
    }
}

impl ParseInline for Ff {
    open spec fn spec_parse_inline(s: Seq<u8>) -> Result<(Ff, nat), Error> {
        if s.len() == 0 {
            Err(Error::EndOfInput)
        } else if s[0] == 0xff {
            Ok((Ff, 1))
        } else {
            Err(Error::OutOfBounds)
        }
    }

    fn parse_inline(input: &mut Input) -> (res: Result<Ff, Error>) {
        if input.parse_u8()? == 0xff {
            Ok(Ff)
        } else {
            Err(Error::OutOfBounds)
        }
    }

    proof fn lemma_parse_inline_roundtrip(v: Ff, rest: Seq<u8>) {
        assert((seq![0xffu8] + rest)[0] == 0xff);
    }

    proof fn lemma_parse_inline_canonical(s: Seq<u8>) {
        if s.len() > 0 {
            assert(s.take(1) =~= seq![s[0]]);
        }
    }
}

impl Niched for Ff {
    /// Bytes `254, 253, ..., 0` are spare, largest first.
    open spec fn niche_count() -> nat {
        255
    }

    open spec fn niche_len() -> nat {
        1
    }

    open spec fn spec_niche(i: nat) -> Seq<u8> {
        seq![(254 - i) as u8]
    }

    fn niche_count_exec() -> (n: usize) {
        255
    }

    fn niche(i: usize) -> (r: Vec<u8>) {
        let mut r = Vec::new();
        r.push((254 - i) as u8);
        proof {
            assert(r@ =~= Self::spec_niche(i as nat));
        }
        r
    }

    proof fn lemma_niche_len(i: nat) {
    }

    proof fn lemma_niches_distinct(i: nat, j: nat) {
        assert(Self::spec_niche(i)[0] != Self::spec_niche(j)[0]);
    }

    proof fn lemma_niche_not_value(v: Ff, i: nat) {
        assert(Self::spec_output(v).take(1)[0] != Self::spec_niche(i)[0]);
    }
}

/// A run of `n` zero bytes.
pub open spec fn zeros(n: nat) -> Seq<u8> {
    Seq::new(n, |i: int| 0u8)
}

impl<const N: usize> ToOutput for [u8; N] {
    open spec fn spec_valid(v: Seq<u8>) -> bool {
        v.len() == N
    }

    open spec fn spec_output(v: Seq<u8>) -> Seq<u8> {
        v
    }

    fn to_output(&self, output: &mut Vec<u8>) {
        let ghost old_out = output@;
        let mut i: usize = 0;
        while i < N
            invariant
                i <= N,
                self@.len() == N,
                output@ == old_out + self@.take(i as int),
            decreases N - i,
        {
            output.push(self[i]);
            i = i + 1;
            proof {
                assert(self@.take(i as int) =~= self@.take(i - 1) + seq![self@[i - 1]]);
            }
        }
        proof {
            assert(self@.take(N as int) =~= self@);
        }
    }
}

} // verus!

verus! {

/// Copy `N` bytes into an array.
pub fn array_from_slice<const N: usize>(c: &[u8]) -> (a: [u8; N])
    requires
        c@.len() == N,
    ensures
        a@ == c@,
{
    let mut a = [0u8; N];
    let mut i: usize = 0;
    while i < N
        invariant
            i <= N,
            c@.len() == N,
            a@.len() == N,
            forall|j: int| 0 <= j < i ==> a@[j] == c@[j],
        decreases N - i,
    {
        a[i] = c[i];
        i = i + 1;
    }
    proof {
        assert(a@ =~= c@);
    }
    a
}

impl<const N: usize> ParseInline for [u8; N] {
    open spec fn spec_parse_inline(s: Seq<u8>) -> Result<(Seq<u8>, nat), Error> {
        if s.len() < N {
            Err(Error::EndOfInput)
        } else {
            Ok((s.take(N as int), N as nat))
        }
    }

    fn parse_inline(input: &mut Input) -> (res: Result<[u8; N], Error>) {
        let c = input.parse_chunk(N)?;
        let a: [u8; N] = array_from_slice(c);
        proof {
            assert(a.deep_view() =~= a@);
        }
        Ok(a)
    }

    proof fn lemma_parse_inline_roundtrip(v: Seq<u8>, rest: Seq<u8>) {
        assert((v + rest).take(N as int) =~= v);
    }

    proof fn lemma_parse_inline_canonical(s: Seq<u8>) {
    }
}

} // verus!
