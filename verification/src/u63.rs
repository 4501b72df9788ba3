use vstd::prelude::*;
use crate::error::Error;
use crate::input::Input;

verus! {

/// The number that eight big-endian bytes stand for.
pub open spec fn be_num(b: Seq<u8>) -> int {
    b[0] * 0x100000000000000 + b[1] * 0x1000000000000 + b[2] * 0x10000000000 + b[3] * 0x100000000
        + b[4] * 0x1000000 + b[5] * 0x10000 + b[6] * 0x100 + b[7]
}

/// The eight big-endian bytes of `n`, most significant first.
pub open spec fn be_bytes(n: u64) -> Seq<u8> {
    seq![
        (n >> 56u64) as u8,
        (n >> 48u64) as u8,
        (n >> 40u64) as u8,
        (n >> 32u64) as u8,
        (n >> 24u64) as u8,
        (n >> 16u64) as u8,
        (n >> 8u64) as u8,
        n as u8,
    ]
}

/// A length below 2^63 (the range of length prefixes).
pub open spec fn u63_bound() -> int {
    0x8000000000000000
}

/// The bytes of a number stand for the number.
pub proof fn lemma_be_bytes_num(n: u64)
    ensures
        be_bytes(n).len() == 8,
        be_num(be_bytes(n)) == n,
{
    let b0 = (n >> 56u64) as u8;
    let b1 = (n >> 48u64) as u8;
    let b2 = (n >> 40u64) as u8;
    let b3 = (n >> 32u64) as u8;
    let b4 = (n >> 24u64) as u8;
    let b5 = (n >> 16u64) as u8;
    let b6 = (n >> 8u64) as u8;
    let b7 = n as u8;
    assert(b0 * 0x100000000000000 + b1 * 0x1000000000000 + b2 * 0x10000000000 + b3 * 0x100000000
        + b4 * 0x1000000 + b5 * 0x10000 + b6 * 0x100 + b7 == n) by (bit_vector)
        requires
            b0 == (n >> 56u64) as u8,
            b1 == (n >> 48u64) as u8,
            b2 == (n >> 40u64) as u8,
            b3 == (n >> 32u64) as u8,
            b4 == (n >> 24u64) as u8,
            b5 == (n >> 16u64) as u8,
            b6 == (n >> 8u64) as u8,
            b7 == n as u8,
    ;
}

/// Eight bytes are the bytes of the number they stand for.
pub proof fn lemma_be_num_bytes(b: Seq<u8>)
    requires
        b.len() == 8,
    ensures
        0 <= be_num(b) < 0x10000000000000000,
        be_bytes(be_num(b) as u64) == b,
{
    let b0 = b[0];
    let b1 = b[1];
    let b2 = b[2];
    let b3 = b[3];
    let b4 = b[4];
    let b5 = b[5];
    let b6 = b[6];
    let b7 = b[7];
    let n = be_num(b);
    assert(0 <= n < 0x10000000000000000);
    let m = n as u64;
    assert(m == n);
    assert(
        (m >> 56u64) as u8 == b0 && (m >> 48u64) as u8 == b1 && (m >> 40u64) as u8 == b2
        && (m >> 32u64) as u8 == b3 && (m >> 24u64) as u8 == b4 && (m >> 16u64) as u8 == b5
        && (m >> 8u64) as u8 == b6 && m as u8 == b7
    ) by (bit_vector)
        requires
            m == b0 * 0x100000000000000 + b1 * 0x1000000000000 + b2 * 0x10000000000 + b3 * 0x100000000
                + b4 * 0x1000000 + b5 * 0x10000 + b6 * 0x100 + b7,
    ;
    assert(be_bytes(m) =~= b);
}

/// Big-endian bytes order numbers as the numbers are ordered.
pub proof fn lemma_be_order(a: Seq<u8>, b: Seq<u8>)
    requires
        a.len() == 8,
        b.len() == 8,
        be_num(a) < be_num(b),
    ensures
        crate::ordering::lex_order(a, b) == std::cmp::Ordering::Less,
{
    if a[0] != b[0] {
        assert(a.take(0) =~= b.take(0));
        crate::ordering::lemma_lex_order_first_difference(a, b, 0);
    } else if a[1] != b[1] {
        assert(a.take(1) =~= b.take(1));
        crate::ordering::lemma_lex_order_first_difference(a, b, 1);
    } else if a[2] != b[2] {
        assert(a.take(2) =~= b.take(2));
        crate::ordering::lemma_lex_order_first_difference(a, b, 2);
    } else if a[3] != b[3] {
        assert(a.take(3) =~= b.take(3));
        crate::ordering::lemma_lex_order_first_difference(a, b, 3);
    } else if a[4] != b[4] {
        assert(a.take(4) =~= b.take(4));
        crate::ordering::lemma_lex_order_first_difference(a, b, 4);
    } else if a[5] != b[5] {
        assert(a.take(5) =~= b.take(5));
        crate::ordering::lemma_lex_order_first_difference(a, b, 5);
    } else if a[6] != b[6] {
        assert(a.take(6) =~= b.take(6));
        crate::ordering::lemma_lex_order_first_difference(a, b, 6);
    } else {
        assert(a.take(7) =~= b.take(7));
        crate::ordering::lemma_lex_order_first_difference(a, b, 7);
    }
}

/// Append the eight big-endian bytes of `n`.
pub fn write_be(n: u64, output: &mut Vec<u8>)
    ensures
        final(output)@ == old(output)@ + be_bytes(n),
{
    output.push((n >> 56u64) as u8);
    output.push((n >> 48u64) as u8);
    output.push((n >> 40u64) as u8);
    output.push((n >> 32u64) as u8);
    output.push((n >> 24u64) as u8);
    output.push((n >> 16u64) as u8);
    output.push((n >> 8u64) as u8);
    output.push(n as u8);
    proof {
        assert(output@ =~= old(output)@ + be_bytes(n));
    }
}

/// The number that eight big-endian bytes stand for.
pub fn read_be(c: &[u8]) -> (n: u64)
    requires
        c@.len() == 8,
    ensures
        n == be_num(c@),
{
    let b0 = c[0];
    let b1 = c[1];
    let b2 = c[2];
    let b3 = c[3];
    let b4 = c[4];
    let b5 = c[5];
    let b6 = c[6];
    let b7 = c[7];
    let n = ((b0 as u64) << 56u64) | ((b1 as u64) << 48u64) | ((b2 as u64) << 40u64) | ((b3 as u64) << 32u64)
        | ((b4 as u64) << 24u64) | ((b5 as u64) << 16u64) | ((b6 as u64) << 8u64) | (b7 as u64);
    assert(n == b0 * 0x100000000000000 + b1 * 0x1000000000000 + b2 * 0x10000000000 + b3 * 0x100000000
        + b4 * 0x1000000 + b5 * 0x10000 + b6 * 0x100 + b7) by (bit_vector)
        requires
            n == ((b0 as u64) << 56u64) | ((b1 as u64) << 48u64) | ((b2 as u64) << 40u64) | ((b3 as u64) << 32u64)
                | ((b4 as u64) << 24u64) | ((b5 as u64) << 16u64) | ((b6 as u64) << 8u64) | (b7 as u64),
    ;
    n
}

/// The encoding of a length prefix: eight big-endian bytes.
pub open spec fn u63_output(n: nat) -> Seq<u8> {
    be_bytes(n as u64)
}

/// Decode a length prefix from the front of `s`: eight big-endian bytes holding a
/// number below 2^63.
pub open spec fn u63_parse(s: Seq<u8>) -> Result<nat, Error> {
    if s.len() < 8 {
        Err(Error::EndOfInput)
    } else if be_num(s.take(8)) >= u63_bound() {
        Err(Error::OutOfBounds)
    } else {
        Ok(be_num(s.take(8)) as nat)
    }
}

/// Decoding an encoded length prefix gives the length back and takes eight bytes.
pub proof fn lemma_u63_roundtrip(n: nat, rest: Seq<u8>)
    requires
        n < u63_bound(),
    ensures
        u63_output(n).len() == 8,
        u63_parse(u63_output(n) + rest) == Ok::<nat, Error>(n),
{
    lemma_be_bytes_num(n as u64);
    assert((u63_output(n) + rest).take(8) =~= u63_output(n));
}

/// A decoded length prefix is the encoding of its length.
pub proof fn lemma_u63_canonical(s: Seq<u8>)
    ensures
        u63_parse(s) matches Ok(n) ==> n < u63_bound() && s.len() >= 8 && s.take(8) == u63_output(n),
{
    if s.len() >= 8 {
        lemma_be_num_bytes(s.take(8));
    }
}

/// The prefix of a length below 2^63 stands for that length.
pub proof fn lemma_u63_num(n: nat)
    requires
        n < u63_bound(),
    ensures
        u63_output(n).len() == 8,
        be_num(u63_output(n)) == n,
{
    lemma_be_bytes_num(n as u64);
}

/// Length prefixes are ordered as the lengths are.
pub proof fn lemma_u63_order(a: nat, b: nat)
    requires
        a < b < u63_bound(),
    ensures
        crate::ordering::lex_order(u63_output(a), u63_output(b)) == std::cmp::Ordering::Less,
{
    lemma_u63_num(a);
    lemma_u63_num(b);
    lemma_be_order(u63_output(a), u63_output(b));
}

/// Append the length prefix for `n`.
pub fn write_u63(n: usize, output: &mut Vec<u8>)
    ensures
        final(output)@ == old(output)@ + u63_output(n as nat),
{
    write_be(n as u64, output);
}

/// Decode a length prefix and convert it to `usize`.
pub fn parse_u63(input: &mut Input) -> (r: Result<usize, Error>)
    ensures
        match u63_parse(old(input).rest()) {
            Ok(n) => if n <= usize::MAX {
                r == Ok::<usize, Error>(n as usize) && final(input).rest() == old(input).rest().skip(8)
            } else {
                r == Err::<usize, Error>(Error::UnsupportedLength)
            },
            Err(e) => r == Err::<usize, Error>(e),
        },
{
    let c = input.parse_chunk(8)?;
    let n = read_be(c);
    if n >= 0x8000000000000000u64 {
        return Err(Error::OutOfBounds);
    }
    if n > usize::MAX as u64 {
        return Err(Error::UnsupportedLength);
    }
    Ok(n as usize)
}

} // verus!
