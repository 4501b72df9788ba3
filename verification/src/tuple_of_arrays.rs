use vstd::prelude::*;
use crate::error::Error;
use crate::input::Input;
use crate::traits::{ToOutput, ParseInline, Parse};
use crate::tuple::Size;
use crate::sequence::{concat_outputs, parse_items, all_valid, items_to_output, parse_vec, lemma_parse_items_roundtrip, lemma_parse_items_canonical};

verus! {

/// Collections that hold their items in order, like a vector.
pub trait VecLike {}

impl<T> VecLike for Vec<T> {}

/// Encodings of fixed-size items have length count times size.
pub proof fn lemma_concat_len<T: Size>(s: Seq<T::V>)
    requires
        all_valid::<T>(s),
    ensures
        concat_outputs::<T>(s).len() == s.len() * T::spec_size(),
    decreases s.len(),
{
    if s.len() > 0 {
        T::lemma_size(s[0]);
        assert forall|i: int| 0 <= i < s.drop_first().len() implies T::spec_valid(#[trigger] s.drop_first()[i]) by {
            assert(s.drop_first()[i] == s[i + 1]);
        }
        lemma_concat_len::<T>(s.drop_first());
        assert(s.len() * T::spec_size() == T::spec_size() + (s.len() - 1) * T::spec_size()) by (nonlinear_arith);
    }
}

/// Two runs of fixed-size items with one count: all items of the first kind, then
/// all of the second. The count is what the length of the input gives.
pub struct TupleOfArrays<A, B>(pub Vec<A>, pub Vec<B>);

impl<A: DeepView, B: DeepView> DeepView for TupleOfArrays<A, B> {
    type V = (Seq<A::V>, Seq<B::V>);

    open spec fn deep_view(&self) -> (Seq<A::V>, Seq<B::V>) {
        (self.0.deep_view(), self.1.deep_view())
    }
}

/// The count of items that `n` bytes hold, for items of sizes `a` and `b` in pairs;
/// `None` where the bytes do not split evenly (or the sizes are both zero).
pub open spec fn pair_count(n: nat, a: nat, b: nat) -> Option<nat> {
    if a + b == 0 || a + b > usize::MAX || n % (a + b) != 0 {
        None
    } else {
        Some(n / (a + b))
    }
}

impl<A: Size, B: Size> ToOutput for TupleOfArrays<A, B> {
    /// The items are valid, and the runs have the counts that decoding finds again:
    /// one count for both, except that a run of zero-size items is empty.
    open spec fn spec_valid(v: (Seq<A::V>, Seq<B::V>)) -> bool {
        &&& all_valid::<A>(v.0)
        &&& all_valid::<B>(v.1)
        &&& 0 < A::spec_size() + B::spec_size() <= usize::MAX
        &&& if A::spec_size() == 0 {
            v.0.len() == 0
        } else if B::spec_size() == 0 {
            v.1.len() == 0
        } else {
            v.0.len() == v.1.len()
        }
    }

    open spec fn spec_output(v: (Seq<A::V>, Seq<B::V>)) -> Seq<u8> {
        concat_outputs::<A>(v.0) + concat_outputs::<B>(v.1)
    }

    fn to_output(&self, output: &mut Vec<u8>) {
        items_to_output(&self.0, output);
        items_to_output(&self.1, output);
        proof {
            assert(output@ =~= old(output)@ + (concat_outputs::<A>(self.0.deep_view()) + concat_outputs::<B>(self.1.deep_view())));
        }
    }
}

impl<A: Size + ParseInline, B: Size + ParseInline> Parse for TupleOfArrays<A, B> {
    open spec fn spec_parse(s: Seq<u8>) -> Result<(Seq<A::V>, Seq<B::V>), Error> {
        match pair_count(s.len(), A::spec_size(), B::spec_size()) {
            Some(m) => {
                let cut = m * A::spec_size();
                match parse_items::<A>(s.take(cut as int)) {
                    Ok(x) => match parse_items::<B>(s.skip(cut as int)) {
                        Ok(y) => Ok((x, y)),
                        Err(e) => Err(e),
                    },
                    Err(e) => Err(e),
                }
            },
            None => Err(Error::Parse),
        }
    }

    fn parse(input: Input) -> (res: Result<TupleOfArrays<A, B>, Error>) {
        let mut input = input;
        let ghost s = input.rest();
        let n = input.remaining();
        let sa = A::size();
        let sb = B::size();
        let k = match sa.checked_add(sb) {
            Some(k) => k,
            None => {
                return Err(Error::Parse);
            },
        };
        if k == 0 || n % k != 0 {
            return Err(Error::Parse);
        }
        let m = n / k;
        proof {
            assert(m * sa <= m * k) by (nonlinear_arith)
                requires
                    sa <= k,
            ;
            assert(m * k <= n) by (nonlinear_arith)
                requires
                    m == n / k,
                    k > 0,
            ;
        }
        let cut = m * sa;
        let first = input.split(cut)?;
        let x = parse_vec::<A>(first)?;
        let y = parse_vec::<B>(input)?;
        proof {
            assert(first.rest() =~= s.take(cut as int));
        }
        Ok(TupleOfArrays(x, y))
    }

    proof fn lemma_parse_roundtrip(v: (Seq<A::V>, Seq<B::V>)) {
        let ca = v.0.len();
        let cb = v.1.len();
        let sa = A::spec_size();
        let sb = B::spec_size();
        let oa = concat_outputs::<A>(v.0);
        let ob = concat_outputs::<B>(v.1);
        lemma_concat_len::<A>(v.0);
        lemma_concat_len::<B>(v.1);
        let s = oa + ob;
        let m = if sa == 0 {
            cb
        } else {
            ca
        };
        assert(s.len() == m * (sa + sb) && oa.len() == m * sa) by (nonlinear_arith)
            requires
                s.len() == oa.len() + ob.len(),
                oa.len() == ca * sa,
                ob.len() == cb * sb,
                m == if sa == 0 { cb } else { ca },
                sa == 0 ==> ca == 0,
                sa != 0 && sb == 0 ==> cb == 0,
                sa != 0 && sb != 0 ==> ca == cb,
        ;
        assert(s.len() % (sa + sb) == 0 && s.len() / (sa + sb) == m) by (nonlinear_arith)
            requires
                s.len() == m * (sa + sb),
                sa + sb > 0,
        ;
        assert(s.take(oa.len() as int) =~= oa);
        assert(s.skip(oa.len() as int) =~= ob);
        assert forall|i: int| 0 <= i < v.0.len() implies A::spec_valid(#[trigger] v.0[i]) && A::spec_output(v.0[i]).len() > 0 by {
            A::lemma_size(v.0[i]);
        }
        assert forall|i: int| 0 <= i < v.1.len() implies B::spec_valid(#[trigger] v.1[i]) && B::spec_output(v.1[i]).len() > 0 by {
            B::lemma_size(v.1[i]);
        }
        lemma_parse_items_roundtrip::<A>(v.0);
        lemma_parse_items_roundtrip::<B>(v.1);
    }

    proof fn lemma_parse_canonical(s: Seq<u8>) {
        if let Some(m) = pair_count(s.len(), A::spec_size(), B::spec_size()) {
            let sa = A::spec_size();
            let sb = B::spec_size();
            let cut = m * sa;
            assert(m * sa <= m * (sa + sb) && m * (sa + sb) == s.len()) by (nonlinear_arith)
                requires
                    m == s.len() / (sa + sb),
                    s.len() % (sa + sb) == 0,
                    sa + sb > 0,
            ;
            lemma_parse_items_canonical::<A>(s.take(cut as int));
            lemma_parse_items_canonical::<B>(s.skip(cut as int));
            if let Ok(x) = parse_items::<A>(s.take(cut as int)) {
                if let Ok(y) = parse_items::<B>(s.skip(cut as int)) {
                    assert(s =~= s.take(cut as int) + s.skip(cut as int));
                    lemma_concat_len::<A>(x);
                    lemma_concat_len::<B>(y);
                    if x.len() > 0 {
                        A::lemma_size(x[0]);
                    }
                    if y.len() > 0 {
                        B::lemma_size(y[0]);
                    }
                    assert(if sa == 0 {
                        x.len() == 0
                    } else if sb == 0 {
                        y.len() == 0
                    } else {
                        x.len() == y.len()
                    }) by (nonlinear_arith)
                        requires
                            x.len() * sa == m * sa,
                            y.len() * sb == s.len() - m * sa,
                            m * (sa + sb) == s.len(),
                            x.len() > 0 ==> sa > 0,
                            y.len() > 0 ==> sb > 0,
                            sa + sb > 0,
                    ;
                }
            }
        }
    }
}

impl<A, B> VecLike for TupleOfArrays<A, B> {}

} // verus!
