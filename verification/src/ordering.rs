use std::cmp::Ordering;
use vstd::prelude::*;
use crate::seqs::{skip_u, at_u, lemma_skip_step, lemma_skip_zero};
use crate::traits::ToOutput;

verus! {

/// Lexicographic order of byte strings (a proper prefix is smaller).
pub open spec fn lex_order(a: Seq<u8>, b: Seq<u8>) -> Ordering
    decreases a.len(),
{
    if a.len() == 0 {
        if b.len() == 0 {
            Ordering::Equal
        } else {
            Ordering::Less
        }
    } else if b.len() == 0 {
        Ordering::Greater
    } else if a[0] < b[0] {
        Ordering::Less
    } else if a[0] > b[0] {
        Ordering::Greater
    } else {
        lex_order(a.drop_first(), b.drop_first())
    }
}

/// Swapping the arguments reverses the order.
pub proof fn lemma_lex_order_flip(a: Seq<u8>, b: Seq<u8>)
    ensures
        lex_order(b, a) == match lex_order(a, b) {
            Ordering::Less => Ordering::Greater,
            Ordering::Equal => Ordering::Equal,
            Ordering::Greater => Ordering::Less,
        },
    decreases a.len(),
{
    if a.len() > 0 && b.len() > 0 && a[0] == b[0] {
        lemma_lex_order_flip(a.drop_first(), b.drop_first());
    }
}

/// Only equal strings compare equal.
pub proof fn lemma_lex_order_equal(a: Seq<u8>, b: Seq<u8>)
    ensures
        lex_order(a, b) == Ordering::Equal <==> a == b,
    decreases a.len(),
{
    if a.len() == 0 && b.len() == 0 {
        assert(a =~= b);
    } else if a.len() > 0 && b.len() > 0 && a[0] == b[0] {
        lemma_lex_order_equal(a.drop_first(), b.drop_first());
        if a.drop_first() == b.drop_first() {
            assert(a =~= seq![a[0]] + a.drop_first());
            assert(b =~= seq![b[0]] + b.drop_first());
        }
    } else if a.len() > 0 && b.len() > 0 {
        assert(a[0] != b[0]);
    } else {
        assert(a.len() != b.len());
    }
}

/// A common prefix does not change the order.
pub proof fn lemma_lex_order_prefix(p: Seq<u8>, a: Seq<u8>, b: Seq<u8>)
    ensures
        lex_order(p + a, p + b) == lex_order(a, b),
    decreases p.len(),
{
    if p.len() > 0 {
        assert((p + a).drop_first() =~= p.drop_first() + a);
        assert((p + b).drop_first() =~= p.drop_first() + b);
        lemma_lex_order_prefix(p.drop_first(), a, b);
    } else {
        assert(p + a =~= a);
        assert(p + b =~= b);
    }
}

/// Order of `a` and `b` decided at their first difference, before either ends,
/// is kept whatever follows them.
pub proof fn lemma_lex_order_extend(a: Seq<u8>, b: Seq<u8>, x: Seq<u8>, y: Seq<u8>)
    requires
        a.len() == b.len(),
        a != b,
    ensures
        lex_order(a + x, b + y) == lex_order(a, b),
    decreases a.len(),
{
    if a.len() > 0 {
        if a[0] == b[0] {
            assert((a + x).drop_first() =~= a.drop_first() + x);
            assert((b + y).drop_first() =~= b.drop_first() + y);
            if a.drop_first() == b.drop_first() {
                assert(a =~= seq![a[0]] + a.drop_first());
                assert(b =~= seq![b[0]] + b.drop_first());
            }
            lemma_lex_order_extend(a.drop_first(), b.drop_first(), x, y);
        }
    } else {
        assert(a =~= b);
    }
}

/// The first difference decides the order.
pub proof fn lemma_lex_order_first_difference(a: Seq<u8>, b: Seq<u8>, k: int)
    requires
        0 <= k,
        k < a.len(),
        k < b.len(),
        a.take(k) == b.take(k),
        a[k] < b[k],
    ensures
        lex_order(a, b) == Ordering::Less,
    decreases k,
{
    if k > 0 {
        assert(a[0] == a.take(k)[0]);
        assert(b[0] == b.take(k)[0]);
        assert(a.drop_first().take(k - 1) =~= a.take(k).drop_first());
        assert(b.drop_first().take(k - 1) =~= b.take(k).drop_first());
        lemma_lex_order_first_difference(a.drop_first(), b.drop_first(), k - 1);
    }
}

/// Compare two byte strings lexicographically.
pub fn compare_bytes(a: &[u8], b: &[u8]) -> (r: Ordering)
    ensures
        r == lex_order(a@, b@),
{
    let mut i: usize = 0;
    proof {
        lemma_skip_zero(a@);
        lemma_skip_zero(b@);
    }
    while i < a.len() && i < b.len()
        invariant
            i <= a@.len(),
            i <= b@.len(),
            lex_order(a@, b@) == lex_order(skip_u(a@, i), skip_u(b@, i)),
        decreases a@.len() - i,
    {
        proof {
            lemma_skip_step(a@, i);
            lemma_skip_step(b@, i);
        }
        if a[i] < b[i] {
            return Ordering::Less;
        } else if a[i] > b[i] {
            return Ordering::Greater;
        }
        i = i + 1;
    }
    if i < a.len() {
        Ordering::Greater
    } else if i < b.len() {
        Ordering::Less
    } else {
        Ordering::Equal
    }
}

/// Types whose order is the lexicographic order of their encodings.
pub trait ByteOrd: ToOutput {
    /// Compare by encoding: the result is the byte order of the two encodings.
    fn bytes_cmp(&self, other: &Self) -> (r: Ordering)
        requires
            Self::spec_valid(self.deep_view()),
            Self::spec_valid(other.deep_view()),
        ensures
            r == lex_order(Self::spec_output(self.deep_view()), Self::spec_output(other.deep_view())),
    ;
}

/// Compares its contents by the byte order of their encodings.
pub struct OrderedByBytes<T>(pub T);

impl<T: ByteOrd> OrderedByBytes<T> {
    /// Order of the contents' encodings.
    pub fn compare(&self, other: &Self) -> (r: Ordering)
        requires
            T::spec_valid(self.0.deep_view()),
            T::spec_valid(other.0.deep_view()),
        ensures
            r == lex_order(T::spec_output(self.0.deep_view()), T::spec_output(other.0.deep_view())),
    {
        self.0.bytes_cmp(&other.0)
    }

    /// Equality of the contents' encodings.
    pub fn eq(&self, other: &Self) -> (r: bool)
        requires
            T::spec_valid(self.0.deep_view()),
            T::spec_valid(other.0.deep_view()),
        ensures
            r == (T::spec_output(self.0.deep_view()) == T::spec_output(other.0.deep_view())),
    {
        proof {
            lemma_lex_order_equal(T::spec_output(self.0.deep_view()), T::spec_output(other.0.deep_view()));
        }
        match self.0.bytes_cmp(&other.0) {
            Ordering::Equal => true,
            Ordering::Less => false,
            Ordering::Greater => false,
        }
    }
}

/// Byte-ordered types whose encodings of different lengths are ordered by length
/// first, so that a length prefix keeps their order.
pub trait SignificantLength: ByteOrd {
    /// Of two valid values with encodings of different lengths, the shorter is smaller.
    proof fn lemma_length_first(a: Self::V, b: Self::V)
        requires
            Self::spec_valid(a),
            Self::spec_valid(b),
            Self::spec_output(a).len() < Self::spec_output(b).len(),
        ensures
            lex_order(Self::spec_output(a), Self::spec_output(b)) == Ordering::Less,
    ;
}

impl ByteOrd for u8 {
    fn bytes_cmp(&self, other: &Self) -> (r: Ordering) {
        proof {
            reveal_with_fuel(lex_order, 2);
        }
        if *self < *other {
            Ordering::Less
        } else if *self > *other {
            Ordering::Greater
        } else {
            Ordering::Equal
        }
    }
}

impl ByteOrd for bool {
    fn bytes_cmp(&self, other: &Self) -> (r: Ordering) {
        proof {
            reveal_with_fuel(lex_order, 2);
        }
        if !*self && *other {
            Ordering::Less
        } else if *self && !*other {
            Ordering::Greater
        } else {
            Ordering::Equal
        }
    }
}

impl ByteOrd for crate::primitives::Ff {
    fn bytes_cmp(&self, other: &Self) -> (r: Ordering) {
        proof {
            reveal_with_fuel(lex_order, 2);
        }
        Ordering::Equal
    }
}

impl<const N: usize> ByteOrd for [u8; N] {
    fn bytes_cmp(&self, other: &Self) -> (r: Ordering) {
        proof {
            assert(self.deep_view() =~= self@);
            assert(other.deep_view() =~= other@);
        }
        compare_bytes(self.as_slice(), other.as_slice())
    }
}

} // verus!
