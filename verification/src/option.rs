use std::cmp::Ordering;
use vstd::prelude::*;
use crate::error::Error;
use crate::input::Input;
use crate::ordering::{ByteOrd, lex_order};
use crate::seqs::bytes_eq;
use crate::traits::{ToOutput, ParseInline, Niched};

verus! {

/// `None` takes the first niche of `T`; `Some(v)` is encoded as `v`.
impl<T: Niched> ToOutput for Option<T> {
    open spec fn spec_valid(v: Option<T::V>) -> bool {
        match v {
            Some(x) => T::spec_valid(x),
            None => T::niche_count() >= 1,
        }
    }

    open spec fn spec_output(v: Option<T::V>) -> Seq<u8> {
        match v {
            Some(x) => T::spec_output(x),
            None => if T::niche_count() >= 1 {
                T::spec_niche(0)
            } else {
                Seq::empty()
            },
        }
    }

    fn to_output(&self, output: &mut Vec<u8>) {
        match self {
            Some(x) => x.to_output(output),
            None => {
                if T::niche_count_exec() >= 1 {
                    let mut n = T::niche(0);
                    output.append(&mut n);
                } else {
                    proof {
                        assert(output@ =~= output@ + Seq::<u8>::empty());
                    }
                }
            },
        }
    }
}

impl<T: Niched> ParseInline for Option<T> {
    open spec fn spec_parse_inline(s: Seq<u8>) -> Result<(Option<T::V>, nat), Error> {
        if T::niche_count() >= 1 && s.len() >= T::niche_len() && s.take(T::niche_len() as int)
            == T::spec_niche(0) {
            Ok((None, T::niche_len()))
        } else {
            match T::spec_parse_inline(s) {
                Ok((v, n)) => Ok((Some(v), n)),
                Err(e) => Err(e),
            }
        }
    }

    fn parse_inline(input: &mut Input) -> (res: Result<Option<T>, Error>) {
        if T::niche_count_exec() >= 1 {
            let niche = T::niche(0);
            proof {
                T::lemma_niche_len(0);
            }
            match input.peek_chunk(niche.len()) {
                Some(c) => {
                    if bytes_eq(c, niche.as_slice()) {
                        let _ = input.parse_chunk(niche.len());
                        return Ok(None);
                    }
                },
                None => {},
            }
        }
        let v = T::parse_inline(input)?;
        Ok(Some(v))
    }

    proof fn lemma_parse_inline_roundtrip(v: Option<T::V>, rest: Seq<u8>) {
        let s = Self::spec_output(v) + rest;
        match v {
            Some(x) => {
                if T::niche_count() >= 1 {
                    T::lemma_niche_not_value(x, 0);
                    assert(s.take(T::niche_len() as int) =~= T::spec_output(x).take(T::niche_len() as int));
                }
                T::lemma_parse_inline_roundtrip(x, rest);
            },
            None => {
                T::lemma_niche_len(0);
                assert(s.take(T::niche_len() as int) =~= T::spec_niche(0));
            },
        }
    }

    proof fn lemma_parse_inline_canonical(s: Seq<u8>) {
        T::lemma_parse_inline_canonical(s);
        if T::niche_count() >= 1 {
            T::lemma_niche_len(0);
        }
    }
}

/// `Option<T>` keeps the niches of `T` after the first, which `None` took.
impl<T: Niched> Niched for Option<T> {
    open spec fn niche_count() -> nat {
        if T::niche_count() >= 1 {
            (T::niche_count() - 1) as nat
        } else {
            0
        }
    }

    open spec fn niche_len() -> nat {
        T::niche_len()
    }

    open spec fn spec_niche(i: nat) -> Seq<u8> {
        T::spec_niche(i + 1)
    }

    fn niche_count_exec() -> (n: usize) {
        let c = T::niche_count_exec();
        if c >= 1 {
            c - 1
        } else {
            0
        }
    }

    fn niche(i: usize) -> (r: Vec<u8>) {
        let _ = T::niche_count_exec();
        T::niche(i + 1)
    }

    proof fn lemma_niche_len(i: nat) {
        T::lemma_niche_len(i + 1);
    }

    proof fn lemma_niches_distinct(i: nat, j: nat) {
        T::lemma_niches_distinct(i + 1, j + 1);
    }

    proof fn lemma_niche_not_value(v: Option<T::V>, i: nat) {
        match v {
            Some(x) => {
                T::lemma_niche_not_value(x, i + 1);
            },
            None => {
                T::lemma_niche_len(0);
                T::lemma_niches_distinct(0, i + 1);
                assert(T::spec_niche(0).take(T::niche_len() as int) =~= T::spec_niche(0));
            },
        }
    }
}

/// Niched types whose niches are below every value in byte order, later niches
/// below earlier ones; then `None < Some(_)` agrees with the byte order.
pub trait MinNiche: Niched + ByteOrd {
    /// Every niche is below every valid value.
    proof fn lemma_niche_below_value(v: Self::V, i: nat)
        requires
            Self::spec_valid(v),
            i < Self::niche_count(),
        ensures
            lex_order(Self::spec_niche(i), Self::spec_output(v)) == Ordering::Less,
    ;

    /// Later niches are below earlier ones.
    proof fn lemma_niche_decreasing(i: nat, j: nat)
        requires
            i < j < Self::niche_count(),
        ensures
            lex_order(Self::spec_niche(j), Self::spec_niche(i)) == Ordering::Less,
    ;
}

impl<T: MinNiche> ByteOrd for Option<T> {
    fn bytes_cmp(&self, other: &Self) -> (r: Ordering) {
        match (self, other) {
            (None, None) => {
                proof {
                    crate::ordering::lemma_lex_order_equal(T::spec_niche(0), T::spec_niche(0));
                }
                Ordering::Equal
            },
            (None, Some(b)) => {
                proof {
                    T::lemma_niche_below_value(b.deep_view(), 0);
                }
                Ordering::Less
            },
            (Some(a), None) => {
                proof {
                    T::lemma_niche_below_value(a.deep_view(), 0);
                    crate::ordering::lemma_lex_order_flip(T::spec_niche(0), T::spec_output(a.deep_view()));
                }
                Ordering::Greater
            },
            (Some(a), Some(b)) => a.bytes_cmp(b),
        }
    }
}

impl<T: MinNiche> MinNiche for Option<T> {
    proof fn lemma_niche_below_value(v: Option<T::V>, i: nat) {
        match v {
            Some(x) => {
                T::lemma_niche_below_value(x, i + 1);
            },
            None => {
                T::lemma_niche_decreasing(0, i + 1);
            },
        }
    }

    proof fn lemma_niche_decreasing(i: nat, j: nat) {
        T::lemma_niche_decreasing(i + 1, j + 1);
    }
}

} // verus!

verus! {

/// `()` has no spare encoding, so its option is tagged: `Some(())` is `0xff` and
/// `None` takes the first niche of that tag byte, `0xfe`.
impl ToOutput for Option<()> {
    open spec fn spec_valid(v: Option<()>) -> bool {
        true
    }

    open spec fn spec_output(v: Option<()>) -> Seq<u8> {
        match v {
            Some(_) => seq![0xffu8],
            None => seq![0xfeu8],
        }
    }

    fn to_output(&self, output: &mut Vec<u8>) {
        match self {
            Some(_) => output.push(0xff),
            None => output.push(0xfe),
        }
    }
}

impl ParseInline for Option<()> {
    open spec fn spec_parse_inline(s: Seq<u8>) -> Result<(Option<()>, nat), Error> {
        if s.len() == 0 {
            Err(Error::EndOfInput)
        } else if s[0] == 0xff {
            Ok((Some(()), 1))
        } else if s[0] == 0xfe {
            Ok((None, 1))
        } else {
            Err(Error::OutOfBounds)
        }
    }

    fn parse_inline(input: &mut Input) -> (res: Result<Option<()>, Error>) {
        let b = input.parse_u8()?;
        if b == 0xff {
            Ok(Some(()))
        } else if b == 0xfe {
            Ok(None)
        } else {
            Err(Error::OutOfBounds)
        }
    }

    proof fn lemma_parse_inline_roundtrip(v: Option<()>, rest: Seq<u8>) {
        assert((Self::spec_output(v) + rest)[0] == Self::spec_output(v)[0]);
        match v {
            Some(u) => {
                assert(u == ());
            },
            None => {},
        }
    }

    proof fn lemma_parse_inline_canonical(s: Seq<u8>) {
        if s.len() > 0 {
            assert(s.take(1) =~= seq![s[0]]);
        }
    }
}

/// The tag byte's remaining niches: `0xfd, 0xfc, ..., 0`.
impl Niched for Option<()> {
    open spec fn niche_count() -> nat {
        254
    }

    open spec fn niche_len() -> nat {
        1
    }

    open spec fn spec_niche(i: nat) -> Seq<u8> {
        seq![(253 - i) as u8]
    }

    fn niche_count_exec() -> (n: usize) {
        254
    }

    fn niche(i: usize) -> (r: Vec<u8>) {
        let mut r = Vec::new();
        r.push((253 - i) as u8);
        proof {
            assert(r@ =~= Self::spec_niche(i as nat));
        }
        r
    }

    proof fn lemma_niche_len(i: nat) {
    }

    proof fn lemma_niches_distinct(i: nat, j: nat) {
        assert(Self::spec_niche(i)[0] != Self::spec_niche(j)[0]);
    }

    proof fn lemma_niche_not_value(v: Option<()>, i: nat) {
        assert(Self::spec_output(v).take(1)[0] != Self::spec_niche(i)[0]);
    }
}

impl ByteOrd for Option<()> {
    fn bytes_cmp(&self, other: &Self) -> (r: Ordering) {
        proof {
            reveal_with_fuel(lex_order, 2);
        }
        match (self, other) {
            (None, None) => Ordering::Equal,
            (None, Some(_)) => Ordering::Less,
            (Some(_), None) => Ordering::Greater,
            (Some(_), Some(_)) => Ordering::Equal,
        }
    }
}

impl MinNiche for Option<()> {
    proof fn lemma_niche_below_value(v: Option<()>, i: nat) {
        reveal_with_fuel(lex_order, 2);
    }

    proof fn lemma_niche_decreasing(i: nat, j: nat) {
        reveal_with_fuel(lex_order, 2);
    }
}

} // verus!
