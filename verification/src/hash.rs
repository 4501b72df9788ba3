use std::cmp::Ordering;
use vstd::prelude::*;
use crate::error::Error;
use crate::input::Input;
use crate::ordering::{ByteOrd, lex_order, compare_bytes, lemma_lex_order_first_difference};
use crate::option::MinNiche;
use crate::primitives::{zeros, array_from_slice};
use crate::traits::{ToOutput, ParseInline, Niched, output};

verus! {

/// Size of a [`Hash`] in bytes.
pub const HASH_SIZE: usize = 32;

/// What SHA-256 gives for `data`.
pub uninterp spec fn sha256_spec(data: Seq<u8>) -> Seq<u8>;

/// Calls `sha2::Sha256::digest` on `data`; the claim is only that the 32 bytes it
/// returns are SHA-256 of `data`.
#[verifier::external_body]
fn sha256(data: &[u8]) -> (r: [u8; 32])
    ensures
        r@ == sha256_spec(data@),
{
    <sha2::Sha256 as sha2::Digest>::digest(data).into()
}

/// The first half of a 32-byte string is all zeroes (the niche space of hashes).
pub open spec fn half_zero(s: Seq<u8>) -> bool {
    forall|i: int| 0 <= i < 16 ==> s[i] == 0
}

/// The `i`-th niche of hashes: sixteen zeroes, then `u128::MAX - i` big-endian.
pub open spec fn hash_niche_spec(i: nat) -> Seq<u8> {
    zeros(16) + Seq::new(15, |j: int| 0xffu8) + seq![(255 - i) as u8]
}

/// Whether the first half of `c` (32 bytes) is all zeroes.
fn first_half_zero(c: &[u8]) -> (r: bool)
    requires
        c@.len() == 32,
    ensures
        r == half_zero(c@),
{
    let mut i: usize = 0;
    while i < 16
        invariant
            i <= 16,
            c@.len() == 32,
            forall|j: int| 0 <= j < i ==> c@[j] == 0,
        decreases 16 - i,
    {
        if c[i] != 0 {
            return false;
        }
        i = i + 1;
    }
    true
}

/// A hash of an object. Valid hashes never have their first half all zeroes; those
/// byte strings are spare encodings for `Option<Hash>` and its nestings.
#[derive(Debug, Clone, Copy)]
pub struct Hash([u8; 32]);

impl DeepView for Hash {
    type V = Seq<u8>;

    closed spec fn deep_view(&self) -> Seq<u8> {
        self.0@
    }
}

impl Hash {
    /// Wrap the output of SHA-256.
    pub(crate) fn from_sha256(hash: [u8; 32]) -> (r: Hash)
        ensures
            r.deep_view() == hash@,
    {
        Hash(hash)
    }

    /// Convert into raw bytes.
    pub fn into_bytes(self) -> (r: [u8; 32])
        ensures
            r@ == self.deep_view(),
    {
        self.0
    }

    /// The raw bytes.
    pub fn as_bytes(&self) -> (r: &[u8; 32])
        ensures
            r@ == self.deep_view(),
    {
        &self.0
    }

    /// Byte-wise equality.
    pub fn equals(&self, other: &Hash) -> (r: bool)
        ensures
            r == (self.deep_view() == other.deep_view()),
    {
        crate::seqs::bytes_eq(self.0.as_slice(), other.0.as_slice())
    }
}

/// The hash of the empty string, SHA-256 of no bytes.
impl Default for Hash {
    fn default() -> (r: Hash)
        ensures
            r.deep_view() == sha256_spec(Seq::empty()),
    {
        let empty: Vec<u8> = Vec::new();
        proof {
            assert(empty@ =~= Seq::<u8>::empty());
        }
        Hash::from_sha256(sha256(empty.as_slice()))
    }
}

/// SHA-256 of the encoding of `x`.
pub fn data_hash<T: ToOutput>(x: &T) -> (r: Hash)
    ensures
        r.deep_view() == sha256_spec(T::spec_output(x.deep_view())),
{
    let data = output(x);
    Hash::from_sha256(sha256(data.as_slice()))
}

/// SHA-256 of a byte string.
pub fn bytes_hash(data: &[u8]) -> (r: Hash)
    ensures
        r.deep_view() == sha256_spec(data@),
{
    Hash::from_sha256(sha256(data))
}

impl ToOutput for Hash {
    open spec fn spec_valid(v: Seq<u8>) -> bool {
        v.len() == 32 && !half_zero(v)
    }

    open spec fn spec_output(v: Seq<u8>) -> Seq<u8> {
        v
    }

    fn to_output(&self, output: &mut Vec<u8>) {
        self.0.to_output(output);
    }
}

impl ParseInline for Hash {
    open spec fn spec_parse_inline(s: Seq<u8>) -> Result<(Seq<u8>, nat), Error> {
        if s.len() < 32 {
            Err(Error::EndOfInput)
        } else if half_zero(s.take(32)) {
            Err(Error::Zero)
        } else {
            Ok((s.take(32), 32))
        }
    }

    fn parse_inline(input: &mut Input) -> (res: Result<Hash, Error>) {
        let o = OptionalHash::parse_inline(input)?;
        match o.get() {
            Some(h) => Ok(h),
            None => Err(Error::Zero),
        }
    }

    proof fn lemma_parse_inline_roundtrip(v: Seq<u8>, rest: Seq<u8>) {
        assert((v + rest).take(32) =~= v);
    }

    proof fn lemma_parse_inline_canonical(s: Seq<u8>) {
    }
}

/// Hashes have 256 niches, from `u128::MAX` down.
impl Niched for Hash {
    open spec fn niche_count() -> nat {
        256
    }

    open spec fn niche_len() -> nat {
        32
    }

    open spec fn spec_niche(i: nat) -> Seq<u8> {
        hash_niche_spec(i)
    }

    fn niche_count_exec() -> (n: usize) {
        256
    }

    fn niche(i: usize) -> (r: Vec<u8>) {
        let n = HashNiche::niche((255 - i) as u8);
        let r = output(&n);
        proof {
            assert(r@ =~= hash_niche_spec(i as nat));
        }
        r
    }

    proof fn lemma_niche_len(i: nat) {
    }

    proof fn lemma_niches_distinct(i: nat, j: nat) {
        assert(hash_niche_spec(i)[31] != hash_niche_spec(j)[31]);
    }

    proof fn lemma_niche_not_value(v: Seq<u8>, i: nat) {
        assert(v.take(32) =~= v);
        if v == hash_niche_spec(i) {
            assert(half_zero(v));
        }
    }
}

impl ByteOrd for Hash {
    fn bytes_cmp(&self, other: &Self) -> (r: Ordering) {
        compare_bytes(self.0.as_slice(), other.0.as_slice())
    }
}

impl MinNiche for Hash {
    proof fn lemma_niche_below_value(v: Seq<u8>, i: nat) {
        let n = hash_niche_spec(i);
        let k = choose|k: int| 0 <= k < 16 && v[k] != 0 && forall|j: int| 0 <= j < k ==> v[j] == 0;
        assert(exists|k: int| 0 <= k < 16 && v[k] != 0) by {
            assert(!half_zero(v));
        }
        let k0 = choose|k: int| 0 <= k < 16 && v[k] != 0;
        lemma_first_nonzero(v, k0);
        let k = choose|k: int| 0 <= k < 16 && v[k] != 0 && forall|j: int| 0 <= j < k ==> v[j] == 0;
        assert(n.take(k) =~= v.take(k));
        lemma_lex_order_first_difference(n, v, k);
    }

    proof fn lemma_niche_decreasing(i: nat, j: nat) {
        assert(hash_niche_spec(j).take(31) =~= hash_niche_spec(i).take(31));
        lemma_lex_order_first_difference(hash_niche_spec(j), hash_niche_spec(i), 31);
    }
}

/// Some nonzero byte among the first `k0 + 1` has only zeroes before it.
proof fn lemma_first_nonzero(v: Seq<u8>, k0: int)
    requires
        0 <= k0 < 16,
        k0 < v.len(),
        v[k0] != 0,
    ensures
        exists|k: int| 0 <= k < 16 && v[k] != 0 && forall|j: int| 0 <= j < k ==> v[j] == 0,
    decreases k0,
{
    if exists|j: int| 0 <= j < k0 && v[j] != 0 {
        let j = choose|j: int| 0 <= j < k0 && v[j] != 0;
        lemma_first_nonzero(v, j);
    } else {
        assert(forall|j: int| 0 <= j < k0 ==> v[j] == 0);
    }
}

/// The niches of [`Hash`]: sixteen zero bytes followed by `u128::MAX - n` in big-endian.
pub struct HashNiche;

impl HashNiche {
    /// The niche numbered `255 - n`, i.e. the one whose last byte is `n`.
    pub fn niche(n: u8) -> (r: [u8; 32])
        ensures
            r@ == zeros(16) + Seq::new(15, |j: int| 0xffu8) + seq![n],
    {
        let mut r = [0u8; 32];
        let mut i: usize = 16;
        while i < 31
            invariant
                16 <= i <= 31,
                r@.len() == 32,
                forall|j: int| 0 <= j < 16 ==> r@[j] == 0,
                forall|j: int| 16 <= j < i ==> r@[j] == 0xff,
            decreases 31 - i,
        {
            r[i] = 0xff;
            i = i + 1;
        }
        r[31] = n;
        proof {
            assert(r@ =~= zeros(16) + Seq::new(15, |j: int| 0xffu8) + seq![n]);
        }
        r
    }
}

/// The ASCII code of the uppercase hexadecimal digit for a value below sixteen.
pub open spec fn hex_digit(n: int) -> u8 {
    if n < 10 {
        (48 + n) as u8
    } else {
        (55 + n) as u8
    }
}

/// Bytes written as uppercase hexadecimal, two ASCII digits per byte.
pub open spec fn hex_spec(b: Seq<u8>) -> Seq<u8>
    decreases b.len(),
{
    if b.len() == 0 {
        Seq::empty()
    } else {
        hex_spec(b.drop_last()) + seq![hex_digit((b.last() / 16) as int), hex_digit((b.last() % 16) as int)]
    }
}

/// The ASCII digit for a value below sixteen.
fn hex_digit_exec(n: u8) -> (r: u8)
    requires
        n < 16,
    ensures
        r == hex_digit(n as int),
{
    if n < 10 {
        48 + n
    } else {
        55 + n
    }
}

/// Write `bytes` as uppercase hexadecimal.
pub fn to_hex(bytes: &[u8]) -> (r: Vec<u8>)
    ensures
        r@ == hex_spec(bytes@),
{
    let mut r: Vec<u8> = Vec::new();
    let mut i: usize = 0;
    while i < bytes.len()
        invariant
            i <= bytes@.len(),
            r@ == hex_spec(bytes@.take(i as int)),
        decreases bytes@.len() - i,
    {
        let b = bytes[i];
        r.push(hex_digit_exec(b / 16));
        r.push(hex_digit_exec(b % 16));
        proof {
            assert(bytes@.take(i + 1).drop_last() =~= bytes@.take(i as int));
            assert(bytes@.take(i + 1).last() == b);
        }
        i = i + 1;
    }
    proof {
        assert(bytes@.take(i as int) =~= bytes@);
    }
    r
}

impl Hash {
    /// The hash as sixty-four uppercase hexadecimal digits (ASCII).
    pub fn hex(&self) -> (r: Vec<u8>)
        ensures
            r@ == hex_spec(self.deep_view()),
    {
        to_hex(self.0.as_slice())
    }
}

/// Why hexadecimal text does not decode to 32 bytes, or to a hash.
#[derive(Debug, Clone, Copy, PartialEq, Eq)]
pub enum HexError {
    /// A character that is not a hexadecimal digit, at the given position.
    InvalidHexCharacter { c: char, index: usize },
    /// An odd number of digits.
    OddLength,
    /// An even number of digits, but not sixty-four.
    InvalidStringLength,
    /// Sixty-four digits whose bytes have an all-zero first half: a spare encoding,
    /// not a hash.
    Zero,
}

/// The value of a hexadecimal digit (either case), if the byte is one.
pub open spec fn hex_value(c: u8) -> Option<u8> {
    if 48 <= c <= 57 {
        Some((c - 48) as u8)
    } else if 65 <= c <= 70 {
        Some((c - 55) as u8)
    } else if 97 <= c <= 102 {
        Some((c - 87) as u8)
    } else {
        None
    }
}

/// The 32 bytes that 64 hexadecimal digits stand for, two digits per byte, high
/// digit first.
pub open spec fn hex_decoded(text: Seq<u8>, bytes: Seq<u8>) -> bool {
    &&& text.len() == 64
    &&& bytes.len() == 32
    &&& forall|i: int| 0 <= i < 64 ==> #[trigger] hex_value(text[i]) is Some
    &&& forall|i: int| 0 <= i < 32 ==> #[trigger] bytes[i] == hex_value(text[2 * i])->Some_0 * 16 + hex_value(text[2 * i + 1])->Some_0
}

/// What decoding 64 hexadecimal digits into 32 bytes gives: the bytes, or the first
/// reason it fails.
pub open spec fn hex_decode_result(text: Seq<u8>, r: Result<Seq<u8>, HexError>) -> bool {
    match r {
        Ok(bytes) => hex_decoded(text, bytes),
        Err(HexError::OddLength) => text.len() % 2 == 1,
        Err(HexError::InvalidStringLength) => text.len() % 2 == 0 && text.len() != 64,
        Err(HexError::InvalidHexCharacter { c, index }) => {
            &&& text.len() == 64
            &&& index < 64
            &&& hex_value(text[index as int]) is None
            &&& c == text[index as int] as char
            &&& forall|j: int| 0 <= j < index ==> #[trigger] hex_value(text[j]) is Some
        },
        Err(HexError::Zero) => false,
    }
}

/// The 32 bytes that 64 hexadecimal digits stand for.
pub open spec fn hex_bytes(text: Seq<u8>) -> Seq<u8> {
    Seq::new(32, |i: int| (hex_value(text[2 * i])->Some_0 * 16 + hex_value(text[2 * i + 1])->Some_0) as u8)
}

/// What decoding 64 hexadecimal digits into a hash gives: the hash, or the first
/// reason it fails; digits that stand for an all-zero first half are no hash.
pub open spec fn hash_hex_result(text: Seq<u8>, r: Result<Seq<u8>, HexError>) -> bool {
    match r {
        Ok(bytes) => hex_decoded(text, bytes) && !half_zero(bytes),
        Err(HexError::Zero) => {
            &&& text.len() == 64
            &&& forall|i: int| 0 <= i < 64 ==> #[trigger] hex_value(text[i]) is Some
            &&& half_zero(hex_bytes(text))
        },
        Err(e) => hex_decode_result(text, Err(e)),
    }
}

/// Calls `<[u8; 32] as hex::FromHex>::from_hex`. The claim, as its source shows it: an
/// odd length fails first, then any length other than sixty-four; then the digits are
/// read in order, two per byte with the high one first, either case accepted, and the
/// first byte that is no digit fails with its position.
#[verifier::external_body]
fn from_hex_32(text: &[u8]) -> (r: Result<[u8; 32], HexError>)
    ensures
        hex_decode_result(text@, match r {
            Ok(b) => Ok(b@),
            Err(e) => Err(e),
        }),
{
    match <[u8; 32] as hex::FromHex>::from_hex(text) {
        Ok(b) => Ok(b),
        Err(hex::FromHexError::InvalidHexCharacter { c, index }) => Err(HexError::InvalidHexCharacter { c, index }),
        Err(hex::FromHexError::OddLength) => Err(HexError::OddLength),
        Err(hex::FromHexError::InvalidStringLength) => Err(HexError::InvalidStringLength),
    }
}

impl Hash {
    /// The hash that sixty-four hexadecimal digits (either case) stand for; digits
    /// whose first sixteen bytes are all zero are refused, as no hash has them.
    pub fn from_hex(text: &[u8]) -> (r: Result<Hash, HexError>)
        ensures
            hash_hex_result(text@, match r {
                Ok(h) => Ok(h.deep_view()),
                Err(e) => Err(e),
            }),
    {
        match from_hex_32(text) {
            Ok(b) => {
                proof {
                    assert(b@ =~= hex_bytes(text@));
                }
                if first_half_zero(b.as_slice()) {
                    Err(HexError::Zero)
                } else {
                    Ok(Hash(b))
                }
            },
            Err(e) => Err(e),
        }
    }
}

/// Some level of `Option<Hash>`, kept as its 32 raw bytes: a hash, or one of the
/// niches that stand for `None` at some depth.
#[derive(Debug, Clone, Copy)]
pub struct OptionalHash([u8; 32]);

impl DeepView for OptionalHash {
    type V = Seq<u8>;

    closed spec fn deep_view(&self) -> Seq<u8> {
        self.0@
    }
}

impl OptionalHash {
    /// No [`Hash`]: all zeroes.
    pub fn none() -> (r: OptionalHash)
        ensures
            r.deep_view() == zeros(32),
    {
        let r = OptionalHash([0u8; 32]);
        proof {
            assert(r.deep_view() =~= zeros(32));
        }
        r
    }

    /// Wrap raw bytes.
    pub fn from_bytes(bytes: [u8; 32]) -> (r: OptionalHash)
        ensures
            r.deep_view() == bytes@,
    {
        OptionalHash(bytes)
    }

    /// The bytes of a hash.
    pub fn from_hash(hash: Hash) -> (r: OptionalHash)
        ensures
            r.deep_view() == hash.deep_view(),
    {
        OptionalHash(hash.0)
    }

    /// Get [`Hash`] if it's valid.
    pub fn get(&self) -> (r: Option<Hash>)
        ensures
            half_zero(self.deep_view()) ==> r is None,
            !half_zero(self.deep_view()) ==> (r matches Some(h) && h.deep_view() == self.deep_view()),
    {
        if self.is_some() {
            Some(Hash(self.0))
        } else {
            None
        }
    }

    /// Check whether this is a [`Hash`].
    pub fn is_some(&self) -> (r: bool)
        ensures
            r == !half_zero(self.deep_view()),
    {
        !self.is_none()
    }

    /// Check whether this is [`Self::none`] or some less-nested `None`.
    pub fn is_none(&self) -> (r: bool)
        ensures
            r == half_zero(self.deep_view()),
    {
        first_half_zero(self.0.as_slice())
    }

    /// Get [`Hash`]; only for values that hold one.
    pub fn unwrap(&self) -> (r: Hash)
        requires
            !half_zero(self.deep_view()),
        ensures
            r.deep_view() == self.deep_view(),
    {
        Hash(self.0)
    }

    /// A hash is determined by its bytes: for an optional hash that holds one, what
    /// `unwrap` gives and what `get` gives are the same hash, with its bytes.
    pub proof fn lemma_unwrap_get(self, got: Option<Hash>, unwrapped: Hash)
        requires
            !half_zero(self.deep_view()),
            got matches Some(h) && h.deep_view() == self.deep_view(),
            unwrapped.deep_view() == self.deep_view(),
        ensures
            got == Some(unwrapped),
    {
        let h = got->Some_0;
        assert(h.0 =~= unwrapped.0) by {
            assert forall|i: int| 0 <= i < 32 implies h.0[i] == unwrapped.0[i] by {
                assert(h.0@[i] == unwrapped.0@[i]);
            }
        }
    }

    /// Set to [`Self::none`].
    pub fn clear(&mut self)
        ensures
            final(self).deep_view() == zeros(32),
    {
        *self = Self::none();
    }

    /// How the value is shown: the hash in uppercase hexadecimal, or `NONE`.
    pub fn display(&self) -> (r: Vec<u8>)
        ensures
            !half_zero(self.deep_view()) ==> r@ == hex_spec(self.deep_view()),
            half_zero(self.deep_view()) ==> r@ == seq![78u8, 79u8, 78u8, 69u8],
    {
        if self.is_some() {
            to_hex(self.0.as_slice())
        } else {
            let mut r: Vec<u8> = Vec::new();
            r.push(78);
            r.push(79);
            r.push(78);
            r.push(69);
            r
        }
    }

    /// Whether these are the bytes of `hash`.
    pub fn eq_hash(&self, hash: &Hash) -> (r: bool)
        ensures
            r == (self.deep_view() == hash.deep_view()),
    {
        crate::seqs::bytes_eq(self.0.as_slice(), hash.0.as_slice())
    }
}

impl ToOutput for OptionalHash {
    open spec fn spec_valid(v: Seq<u8>) -> bool {
        v.len() == 32
    }

    open spec fn spec_output(v: Seq<u8>) -> Seq<u8> {
        v
    }

    fn to_output(&self, output: &mut Vec<u8>) {
        self.0.to_output(output);
    }
}

impl ParseInline for OptionalHash {
    open spec fn spec_parse_inline(s: Seq<u8>) -> Result<(Seq<u8>, nat), Error> {
        if s.len() < 32 {
            Err(Error::EndOfInput)
        } else {
            Ok((s.take(32), 32))
        }
    }

    fn parse_inline(input: &mut Input) -> (res: Result<OptionalHash, Error>) {
        let c = input.parse_chunk(32)?;
        Ok(OptionalHash(array_from_slice(c)))
    }

    proof fn lemma_parse_inline_roundtrip(v: Seq<u8>, rest: Seq<u8>) {
        assert((v + rest).take(32) =~= v);
    }

    proof fn lemma_parse_inline_canonical(s: Seq<u8>) {
    }
}

} // verus!
