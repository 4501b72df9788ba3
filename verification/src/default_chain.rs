use vstd::prelude::*;
use crate::error::Error;
use crate::input::Input;
use crate::traits::{ToOutput, ParseInline, Parse};
use crate::primitives::zeros;

verus! {

/// Types with a distinguished default value that can be told apart from the others.
pub trait DefaultValue: ToOutput + Sized {
    /// The default value.
    spec fn spec_default() -> Self::V;

    /// Make the default value.
    fn default_value() -> (r: Self)
        ensures
            r.deep_view() == Self::spec_default(),
    ;

    /// Whether `self` is the default value.
    fn is_default(&self) -> (r: bool)
        ensures
            r == (self.deep_view() == Self::spec_default()),
    ;

    /// The default value is a valid value.
    proof fn lemma_default_valid()
        ensures
            Self::spec_valid(Self::spec_default()),
    ;
}

impl DefaultValue for u8 {
    open spec fn spec_default() -> u8 {
        0
    }

    fn default_value() -> (r: u8) {
        0
    }

    fn is_default(&self) -> (r: bool) {
        *self == 0
    }

    proof fn lemma_default_valid() {
    }
}

impl DefaultValue for bool {
    open spec fn spec_default() -> bool {
        false
    }

    fn default_value() -> (r: bool) {
        false
    }

    fn is_default(&self) -> (r: bool) {
        !*self
    }

    proof fn lemma_default_valid() {
    }
}

impl<const N: usize> DefaultValue for [u8; N] {
    open spec fn spec_default() -> Seq<u8> {
        zeros(N as nat)
    }

    /// Like `Default` for arrays: every byte is zero.
    fn default_value() -> (r: [u8; N])
        ensures
            forall|i: int| 0 <= i < N ==> r@[i] == 0u8,
    {
        let r = [0u8; N];
        proof {
            assert(r.deep_view() =~= zeros(N as nat));
        }
        r
    }

    /// Whether every byte is zero.
    fn is_default(&self) -> (r: bool)
        ensures
            r == (forall|i: int| 0 <= i < N ==> self@[i] == 0u8),
    {
        let mut i: usize = 0;
        while i < N
            invariant
                i <= N,
                self@.len() == N,
                forall|j: int| 0 <= j < i ==> self@[j] == 0,
            decreases N - i,
        {
            if self[i] != 0 {
                proof {
                    assert(self.deep_view()[i as int] != zeros(N as nat)[i as int]);
                }
                return false;
            }
            i = i + 1;
        }
        proof {
            assert(self.deep_view() =~= zeros(N as nat));
        }
        true
    }

    proof fn lemma_default_valid() {
    }
}

/// The defaults of a byte and of a boolean are those that `Default` gives: zero and
/// `false`; a byte or a boolean is the default exactly when it is that value.
pub proof fn lemma_scalar_defaults(b: u8, f: bool)
    ensures
        (b == <u8 as DefaultValue>::spec_default()) <==> b == 0u8,
        (f == <bool as DefaultValue>::spec_default()) <==> !f,
{
}

/// The default byte array is the one whose bytes are all zero, as `Default` gives for
/// arrays: an array is the default exactly when each of its bytes is zero.
pub proof fn lemma_byte_array_default<const N: usize>(x: [u8; N])
    ensures
        (x.deep_view() == <[u8; N] as DefaultValue>::spec_default())
            <==> (forall|i: int| 0 <= i < N ==> x@[i] == 0u8),
        <[u8; N] as DefaultValue>::spec_default().len() == N,
        forall|i: int| 0 <= i < N ==> #[trigger] <[u8; N] as DefaultValue>::spec_default()[i] == 0u8,
{
    assert(x.deep_view() =~= x@);
    if forall|i: int| 0 <= i < N ==> x@[i] == 0u8 {
        assert(x.deep_view() =~= <[u8; N] as DefaultValue>::spec_default());
    }
}

} // verus!

verus! {
/// A value, then a second one that is written only where the first is the default.
pub struct DefaultChain<A, B>(A, B);

impl<A: DeepView, B: DeepView> DeepView for DefaultChain<A, B> {
    type V = (A::V, B::V);

    closed spec fn deep_view(&self) -> (A::V, B::V) {
        (self.0.deep_view(), self.1.deep_view())
    }
}

impl<A: DeepView, B: DefaultValue> DefaultChain<A, B> {
    /// The first value, with the default second value.
    pub fn from_first(first: A) -> (r: Self)
        ensures
            r.deep_view() == (first.deep_view(), B::spec_default()),
    {
        DefaultChain(first, B::default_value())
    }
}

impl<A: DefaultValue, B: DeepView> DefaultChain<A, B> {
    /// The default first value, with the second value.
    pub fn from_second(second: B) -> (r: Self)
        ensures
            r.deep_view() == (A::spec_default(), second.deep_view()),
    {
        DefaultChain(A::default_value(), second)
    }
}

impl<A: DefaultValue, B: DefaultValue> DefaultChain<A, B> {
    /// The first value.
    pub fn first(&self) -> (r: &A)
        ensures
            r.deep_view() == self.deep_view().0,
    {
        &self.0
    }

    /// The second value.
    pub fn second(&self) -> (r: &B)
        ensures
            r.deep_view() == self.deep_view().1,
    {
        &self.1
    }
}

impl<A: DefaultValue, B: DefaultValue> ToOutput for DefaultChain<A, B> {
    /// Both parts are valid, and the second is the default unless the first is.
    open spec fn spec_valid(v: (A::V, B::V)) -> bool {
        &&& A::spec_valid(v.0)
        &&& B::spec_valid(v.1)
        &&& v.0 != A::spec_default() ==> v.1 == B::spec_default()
    }

    open spec fn spec_output(v: (A::V, B::V)) -> Seq<u8> {
        if v.0 == A::spec_default() {
            A::spec_output(v.0) + B::spec_output(v.1)
        } else {
            A::spec_output(v.0)
        }
    }

    fn to_output(&self, output: &mut Vec<u8>) {
        self.0.to_output(output);
        if self.0.is_default() {
            self.1.to_output(output);
            proof {
                assert(output@ =~= old(output)@ + (A::spec_output(self.0.deep_view()) + B::spec_output(self.1.deep_view())));
            }
        }
    }
}

impl<A: DefaultValue + ParseInline, B: DefaultValue + Parse> Parse for DefaultChain<A, B> {
    open spec fn spec_parse(s: Seq<u8>) -> Result<(A::V, B::V), Error> {
        match A::spec_parse_inline(s) {
            Ok((a, n)) => if a == A::spec_default() {
                match B::spec_parse(s.skip(n as int)) {
                    Ok(b) => Ok((a, b)),
                    Err(e) => Err(e),
                }
            } else if n < s.len() {
                Err(Error::ExtraInputLeft)
            } else {
                Ok((a, B::spec_default()))
            },
            Err(e) => Err(e),
        }
    }

    fn parse(input: Input) -> (res: Result<DefaultChain<A, B>, Error>) {
        let mut inp = input;
        let ghost s = inp.rest();
        proof {
            A::lemma_parse_inline_canonical(s);
        }
        let a = A::parse_inline(&mut inp)?;
        if a.is_default() {
            let b = B::parse(inp)?;
            Ok(DefaultChain(a, b))
        } else {
            inp.empty()?;
            Ok(DefaultChain(a, B::default_value()))
        }
    }

    proof fn lemma_parse_roundtrip(v: (A::V, B::V)) {
        let oa = A::spec_output(v.0);
        if v.0 == A::spec_default() {
            let ob = B::spec_output(v.1);
            A::lemma_parse_inline_roundtrip(v.0, ob);
            assert((oa + ob).skip(oa.len() as int) =~= ob);
            B::lemma_parse_roundtrip(v.1);
        } else {
            A::lemma_parse_inline_roundtrip(v.0, Seq::empty());
            assert(oa + Seq::<u8>::empty() =~= oa);
        }
    }

    proof fn lemma_parse_canonical(s: Seq<u8>) {
        A::lemma_parse_inline_canonical(s);
        B::lemma_default_valid();
        if let Ok((a, n)) = A::spec_parse_inline(s) {
            if a == A::spec_default() {
                B::lemma_parse_canonical(s.skip(n as int));
                assert(s =~= s.take(n as int) + s.skip(n as int));
            } else {
                assert(s.take(n as int) =~= s || n < s.len());
            }
        }
    }
}

impl<A: DefaultValue + ParseInline, B: DefaultValue + ParseInline> ParseInline for DefaultChain<A, B> {
    open spec fn spec_parse_inline(s: Seq<u8>) -> Result<((A::V, B::V), nat), Error> {
        match A::spec_parse_inline(s) {
            Ok((a, n)) => if a == A::spec_default() {
                match B::spec_parse_inline(s.skip(n as int)) {
                    Ok((b, k)) => Ok(((a, b), n + k)),
                    Err(e) => Err(e),
                }
            } else {
                Ok(((a, B::spec_default()), n))
            },
            Err(e) => Err(e),
        }
    }

    fn parse_inline(input: &mut Input) -> (res: Result<DefaultChain<A, B>, Error>) {
        let ghost s = input.rest();
        proof {
            A::lemma_parse_inline_canonical(s);
        }
        let a = A::parse_inline(input)?;
        if a.is_default() {
            let ghost n = A::spec_parse_inline(s)->Ok_0.1;
            let ghost t = input.rest();
            proof {
                B::lemma_parse_inline_canonical(t);
            }
            let b = B::parse_inline(input)?;
            proof {
                let k = B::spec_parse_inline(t)->Ok_0.1;
                assert(input.rest() =~= s.skip((n + k) as int));
            }
            Ok(DefaultChain(a, b))
        } else {
            Ok(DefaultChain(a, B::default_value()))
        }
    }

    proof fn lemma_parse_inline_roundtrip(v: (A::V, B::V), rest: Seq<u8>) {
        let oa = A::spec_output(v.0);
        if v.0 == A::spec_default() {
            let ob = B::spec_output(v.1);
            assert(oa + ob + rest =~= oa + (ob + rest));
            A::lemma_parse_inline_roundtrip(v.0, ob + rest);
            assert((oa + (ob + rest)).skip(oa.len() as int) =~= ob + rest);
            B::lemma_parse_inline_roundtrip(v.1, rest);
        } else {
            A::lemma_parse_inline_roundtrip(v.0, rest);
        }
    }

    proof fn lemma_parse_inline_canonical(s: Seq<u8>) {
        A::lemma_parse_inline_canonical(s);
        B::lemma_default_valid();
        if let Ok((a, n)) = A::spec_parse_inline(s) {
            if a == A::spec_default() {
                B::lemma_parse_inline_canonical(s.skip(n as int));
                if let Ok((b, k)) = B::spec_parse_inline(s.skip(n as int)) {
                    assert(s.take((n + k) as int) =~= s.take(n as int) + s.skip(n as int).take(k as int));
                }
            }
        }
    }
}

} // verus!

verus! {

/// A chain whose first part is a byte array of the default value, which is `N` zero
/// bytes, is written as those zero bytes and then the encoding of its second part.
pub proof fn lemma_byte_array_chain_output<const N: usize, B: DefaultValue>(b: B::V)
    ensures
        <DefaultChain<[u8; N], B> as ToOutput>::spec_output((<[u8; N] as DefaultValue>::spec_default(), b))
            == Seq::new(N as nat, |i: int| 0u8) + B::spec_output(b),
{
    assert(<[u8; N] as DefaultValue>::spec_default() =~= Seq::new(N as nat, |i: int| 0u8));
}

/// Decoding `N` zero bytes and then the encoding of a valid second part gives the
/// chain whose first part is the all-zero array and whose second part is that value.
pub proof fn lemma_byte_array_chain_parse<const N: usize, B: DefaultValue + Parse>(b: B::V)
    requires
        B::spec_valid(b),
    ensures
        <DefaultChain<[u8; N], B> as Parse>::spec_parse(Seq::new(N as nat, |i: int| 0u8) + B::spec_output(b))
            == Ok::<(Seq<u8>, B::V), Error>((Seq::new(N as nat, |i: int| 0u8), b)),
{
    let z = Seq::new(N as nat, |i: int| 0u8);
    let s = z + B::spec_output(b);
    assert(s.take(N as int) =~= z);
    assert(s.skip(N as int) =~= B::spec_output(b));
    assert(<[u8; N] as DefaultValue>::spec_default() =~= z);
    B::lemma_parse_roundtrip(b);
}

} // verus!
