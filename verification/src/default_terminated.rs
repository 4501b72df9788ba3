use vstd::prelude::*;
use crate::error::Error;
use crate::input::Input;
use crate::traits::{ToOutput, ParseInline};
use crate::default_chain::DefaultValue;
use crate::sequence::{concat_outputs, items_to_output};

verus! {

/// Every item is valid, is not the default, and has a nonempty encoding.
pub open spec fn all_valid_non_default<A: DefaultValue>(s: Seq<A::V>) -> bool {
    forall|i: int| 0 <= i < s.len() ==> A::spec_valid(#[trigger] s[i]) && s[i] != A::spec_default()
        && A::spec_output(s[i]).len() > 0
}

/// Decode items until one is the default value, which ends them; the number is the
/// count of bytes taken. A non-default item that takes no bytes is refused.
pub open spec fn parse_dt<A: DefaultValue + ParseInline>(s: Seq<u8>) -> Result<(Seq<A::V>, nat), Error>
    decreases s.len(),
{
    match A::spec_parse_inline(s) {
        Ok((v, k)) => if v == A::spec_default() {
            Ok((Seq::empty(), k))
        } else if k == 0 || k > s.len() {
            Err(Error::Parse)
        } else {
            match parse_dt::<A>(s.skip(k as int)) {
                Ok((vs, k2)) => Ok((seq![v] + vs, k + k2)),
                Err(e) => Err(e),
            }
        },
        Err(e) => Err(e),
    }
}

/// Items, then the default value to end them.
pub struct Dt<A: DefaultValue> {
    items: Vec<A>,
    term: A,
}

impl<A: DefaultValue> DeepView for Dt<A> {
    type V = Seq<A::V>;

    closed spec fn deep_view(&self) -> Seq<A::V> {
        self.items.deep_view()
    }
}

impl<A: DefaultValue> Dt<A> {
    #[verifier::type_invariant]
    closed spec fn inv(&self) -> bool {
        self.term.deep_view() == A::spec_default()
    }

    /// The items, to be ended by the default value.
    pub fn new(items: Vec<A>) -> (r: Self)
        ensures
            r.deep_view() == items.deep_view(),
    {
        Dt { items, term: A::default_value() }
    }

    /// The items.
    pub fn items(&self) -> (r: &Vec<A>)
        ensures
            r.deep_view() == self.deep_view(),
    {
        &self.items
    }
}

impl<A: DefaultValue> ToOutput for Dt<A> {
    open spec fn spec_valid(v: Seq<A::V>) -> bool {
        all_valid_non_default::<A>(v)
    }

    open spec fn spec_output(v: Seq<A::V>) -> Seq<u8> {
        concat_outputs::<A>(v) + A::spec_output(A::spec_default())
    }

    fn to_output(&self, output: &mut Vec<u8>) {
        proof {
            use_type_invariant(self);
        }
        items_to_output(&self.items, output);
        self.term.to_output(output);
        proof {
            assert(output@ =~= old(output)@ + (concat_outputs::<A>(self.items.deep_view()) + A::spec_output(A::spec_default())));
        }
    }
}

/// Decoding the encodings of valid non-default items, then the default, gives the
/// items back.
pub proof fn lemma_parse_dt_roundtrip<A: DefaultValue + ParseInline>(v: Seq<A::V>, rest: Seq<u8>)
    requires
        all_valid_non_default::<A>(v),
    ensures
        parse_dt::<A>(concat_outputs::<A>(v) + A::spec_output(A::spec_default()) + rest)
            == Ok::<(Seq<A::V>, nat), Error>((v, (concat_outputs::<A>(v) + A::spec_output(A::spec_default())).len())),
    decreases v.len(),
{
    let end = A::spec_output(A::spec_default());
    A::lemma_default_valid();
    if v.len() == 0 {
        assert(concat_outputs::<A>(v) + end + rest =~= end + rest);
        A::lemma_parse_inline_roundtrip(A::spec_default(), rest);
        assert(concat_outputs::<A>(v) + end =~= end);
        assert(v =~= Seq::<A::V>::empty());
    } else {
        let t = v.drop_first();
        let head = A::spec_output(v[0]);
        let tail = concat_outputs::<A>(t) + end + rest;
        let whole = concat_outputs::<A>(v) + end + rest;
        assert(whole =~= head + tail);
        A::lemma_parse_inline_roundtrip(v[0], tail);
        assert(whole.skip(head.len() as int) =~= tail);
        assert forall|i: int| 0 <= i < t.len() implies A::spec_valid(#[trigger] t[i]) && t[i] != A::spec_default()
            && A::spec_output(t[i]).len() > 0 by {
            assert(t[i] == v[i + 1]);
        }
        lemma_parse_dt_roundtrip::<A>(t, rest);
        assert(seq![v[0]] + t =~= v);
    }
}

/// What decodes is the encoding of valid non-default items, then the default.
pub proof fn lemma_parse_dt_canonical<A: DefaultValue + ParseInline>(s: Seq<u8>)
    ensures
        parse_dt::<A>(s) matches Ok((vs, k)) ==> {
            &&& k <= s.len()
            &&& all_valid_non_default::<A>(vs)
            &&& s.take(k as int) == concat_outputs::<A>(vs) + A::spec_output(A::spec_default())
        },
    decreases s.len(),
{
    A::lemma_parse_inline_canonical(s);
    match A::spec_parse_inline(s) {
        Ok((v, k)) => {
            if v == A::spec_default() {
                assert(concat_outputs::<A>(Seq::<A::V>::empty()) + A::spec_output(A::spec_default())
                    =~= A::spec_output(A::spec_default()));
            } else if k > 0 && k <= s.len() {
                lemma_parse_dt_canonical::<A>(s.skip(k as int));
                if let Ok((vs, k2)) = parse_dt::<A>(s.skip(k as int)) {
                    let all = seq![v] + vs;
                    assert(all.drop_first() =~= vs);
                    assert(s.take((k + k2) as int) =~= s.take(k as int) + s.skip(k as int).take(k2 as int));
                    assert forall|i: int| 0 <= i < all.len() implies A::spec_valid(#[trigger] all[i])
                        && all[i] != A::spec_default() && A::spec_output(all[i]).len() > 0 by {
                        if i > 0 {
                            assert(all[i] == vs[i - 1]);
                        }
                    }
                    assert(concat_outputs::<A>(all) + A::spec_output(A::spec_default())
                        =~= A::spec_output(v) + (concat_outputs::<A>(vs) + A::spec_output(A::spec_default())));
                }
            }
        },
        Err(_) => {},
    }
}

impl<A: DefaultValue + ParseInline> ParseInline for Dt<A> {
    open spec fn spec_parse_inline(s: Seq<u8>) -> Result<(Seq<A::V>, nat), Error> {
        parse_dt::<A>(s)
    }

    fn parse_inline(input: &mut Input) -> (res: Result<Dt<A>, Error>) {
        let ghost s0 = input.rest();
        let mut items: Vec<A> = Vec::new();
        let ghost mut taken: nat = 0;
        loop
            invariant
                s0 == old(input).rest(),
                taken <= s0.len(),
                input.rest() == s0.skip(taken as int),
                parse_dt::<A>(s0) == match parse_dt::<A>(input.rest()) {
                    Ok((vs, k)) => Ok((items.deep_view() + vs, taken + k)),
                    Err(e) => Err::<(Seq<A::V>, nat), Error>(e),
                },
            decreases input.rest().len(),
        {
            let ghost rest = input.rest();
            proof {
                A::lemma_parse_inline_canonical(rest);
            }
            let left = input.remaining();
            let item = match A::parse_inline(input) {
                Ok(x) => x,
                Err(e) => {
                    return Err(e);
                },
            };
            let ghost k = A::spec_parse_inline(rest)->Ok_0.1;
            if item.is_default() {
                proof {
                    assert(items.deep_view() + Seq::<A::V>::empty() =~= items.deep_view());
                    assert(input.rest() =~= s0.skip((taken + k) as int));
                }
                return Ok(Dt { items, term: item });
            }
            let after = input.remaining();
            if after == left {
                return Err(Error::Parse);
            }
            let ghost old_items = items.deep_view();
            let ghost v = item.deep_view();
            proof {
                assert(input.rest() =~= s0.skip((taken + k) as int));
                match parse_dt::<A>(input.rest()) {
                    Ok((vs, k2)) => {
                        assert(old_items + (seq![v] + vs) =~= old_items.push(v) + vs);
                    },
                    Err(_) => {},
                }
                taken = taken + k;
            }
            items.push(item);
            proof {
                assert(items.deep_view() =~= old_items.push(v));
            }
        }
    }

    proof fn lemma_parse_inline_roundtrip(v: Seq<A::V>, rest: Seq<u8>) {
        lemma_parse_dt_roundtrip::<A>(v, rest);
    }

    proof fn lemma_parse_inline_canonical(s: Seq<u8>) {
        lemma_parse_dt_canonical::<A>(s);
    }
}

} // verus!
