use vstd::prelude::*;
use crate::error::Error;
use crate::input::Input;
use crate::traits::{ToOutput, ParseInline, Niched};
use crate::sequence::{concat_outputs, items_to_output, all_valid_nonempty};

verus! {

/// Decode items written as `Some` of an option until a `None`; the number is the
/// count of bytes taken. An item that takes no bytes is refused.
pub open spec fn parse_nt<A: Niched>(s: Seq<u8>) -> Result<(Seq<A::V>, nat), Error>
    decreases s.len(),
{
    match <Option<A> as ParseInline>::spec_parse_inline(s) {
        Ok((o, k)) => match o {
            None => Ok((Seq::empty(), k)),
            Some(v) => if k == 0 || k > s.len() {
                Err(Error::Parse)
            } else {
                match parse_nt::<A>(s.skip(k as int)) {
                    Ok((vs, k2)) => Ok((seq![v] + vs, k + k2)),
                    Err(e) => Err(e),
                }
            },
        },
        Err(e) => Err(e),
    }
}

/// Items of a niched type, each written as itself (`Some`), then the encoding of
/// `None` to end them.
pub struct Nt<A>(pub Vec<A>);

impl<A: DeepView> DeepView for Nt<A> {
    type V = Seq<A::V>;

    open spec fn deep_view(&self) -> Seq<A::V> {
        self.0.deep_view()
    }
}

impl<A: Niched> ToOutput for Nt<A> {
    /// The items are valid with nonempty encodings, and `A` has a spare encoding to
    /// end them with.
    open spec fn spec_valid(v: Seq<A::V>) -> bool {
        all_valid_nonempty::<A>(v) && A::niche_count() >= 1
    }

    open spec fn spec_output(v: Seq<A::V>) -> Seq<u8> {
        concat_outputs::<A>(v) + <Option<A> as ToOutput>::spec_output(None)
    }

    fn to_output(&self, output: &mut Vec<u8>) {
        items_to_output(&self.0, output);
        let ghost mid = output@;
        let none: Option<A> = None;
        none.to_output(output);
        proof {
            assert(output@ =~= old(output)@ + (concat_outputs::<A>(self.0.deep_view()) + <Option<A> as ToOutput>::spec_output(None)));
        }
    }
}

/// Decoding the encodings of valid items, then the end, gives the items back.
pub proof fn lemma_parse_nt_roundtrip<A: Niched>(v: Seq<A::V>, rest: Seq<u8>)
    requires
        all_valid_nonempty::<A>(v),
        A::niche_count() >= 1,
    ensures
        parse_nt::<A>(concat_outputs::<A>(v) + <Option<A> as ToOutput>::spec_output(None) + rest)
            == Ok::<(Seq<A::V>, nat), Error>((v, (concat_outputs::<A>(v) + <Option<A> as ToOutput>::spec_output(None)).len())),
    decreases v.len(),
{
    let end = <Option<A> as ToOutput>::spec_output(None);
    if v.len() == 0 {
        assert(concat_outputs::<A>(v) + end + rest =~= end + rest);
        <Option<A> as ParseInline>::lemma_parse_inline_roundtrip(None, rest);
        assert(concat_outputs::<A>(v) + end =~= end);
        assert(v =~= Seq::<A::V>::empty());
    } else {
        let t = v.drop_first();
        let head = A::spec_output(v[0]);
        let tail = concat_outputs::<A>(t) + end + rest;
        let whole = concat_outputs::<A>(v) + end + rest;
        assert(whole =~= head + tail);
        <Option<A> as ParseInline>::lemma_parse_inline_roundtrip(Some(v[0]), tail);
        assert(whole.skip(head.len() as int) =~= tail);
        assert forall|i: int| 0 <= i < t.len() implies A::spec_valid(#[trigger] t[i]) && A::spec_output(t[i]).len() > 0 by {
            assert(t[i] == v[i + 1]);
        }
        lemma_parse_nt_roundtrip::<A>(t, rest);
        assert(seq![v[0]] + t =~= v);
    }
}

/// What decodes is the encoding of valid items with nonempty encodings, then the end.
pub proof fn lemma_parse_nt_canonical<A: Niched>(s: Seq<u8>)
    ensures
        parse_nt::<A>(s) matches Ok((vs, k)) ==> {
            &&& k <= s.len()
            &&& all_valid_nonempty::<A>(vs)
            &&& A::niche_count() >= 1
            &&& s.take(k as int) == concat_outputs::<A>(vs) + <Option<A> as ToOutput>::spec_output(None)
        },
    decreases s.len(),
{
    <Option<A> as ParseInline>::lemma_parse_inline_canonical(s);
    match <Option<A> as ParseInline>::spec_parse_inline(s) {
        Ok((o, k)) => match o {
            None => {
                assert(concat_outputs::<A>(Seq::<A::V>::empty()) + <Option<A> as ToOutput>::spec_output(None)
                    =~= <Option<A> as ToOutput>::spec_output(None));
            },
            Some(v) => {
                if k > 0 && k <= s.len() {
                    lemma_parse_nt_canonical::<A>(s.skip(k as int));
                    if let Ok((vs, k2)) = parse_nt::<A>(s.skip(k as int)) {
                        let all = seq![v] + vs;
                        assert(all.drop_first() =~= vs);
                        assert(s.take((k + k2) as int) =~= s.take(k as int) + s.skip(k as int).take(k2 as int));
                        assert forall|i: int| 0 <= i < all.len() implies A::spec_valid(#[trigger] all[i])
                            && A::spec_output(all[i]).len() > 0 by {
                            if i > 0 {
                                assert(all[i] == vs[i - 1]);
                            }
                        }
                        assert(concat_outputs::<A>(all) + <Option<A> as ToOutput>::spec_output(None)
                            =~= A::spec_output(v) + (concat_outputs::<A>(vs) + <Option<A> as ToOutput>::spec_output(None)));
                    }
                }
            },
        },
        Err(_) => {},
    }
}

impl<A: Niched> ParseInline for Nt<A> {
    open spec fn spec_parse_inline(s: Seq<u8>) -> Result<(Seq<A::V>, nat), Error> {
        parse_nt::<A>(s)
    }

    fn parse_inline(input: &mut Input) -> (res: Result<Nt<A>, Error>) {
        let ghost s0 = input.rest();
        let mut items: Vec<A> = Vec::new();
        let ghost mut taken: nat = 0;
        loop
            invariant
                s0 == old(input).rest(),
                taken <= s0.len(),
                input.rest() == s0.skip(taken as int),
                parse_nt::<A>(s0) == match parse_nt::<A>(input.rest()) {
                    Ok((vs, k)) => Ok((items.deep_view() + vs, taken + k)),
                    Err(e) => Err::<(Seq<A::V>, nat), Error>(e),
                },
            decreases input.rest().len(),
        {
            let ghost rest = input.rest();
            proof {
                <Option<A> as ParseInline>::lemma_parse_inline_canonical(rest);
            }
            let left = input.remaining();
            let item = match <Option<A> as ParseInline>::parse_inline(input) {
                Ok(o) => o,
                Err(e) => {
                    return Err(e);
                },
            };
            let ghost k = <Option<A> as ParseInline>::spec_parse_inline(rest)->Ok_0.1;
            match item {
                Some(x) => {
                    let after = input.remaining();
                    if after == left {
                        return Err(Error::Parse);
                    }
                    let ghost old_items = items.deep_view();
                    let ghost v = x.deep_view();
                    proof {
                        assert(input.rest() =~= s0.skip((taken + k) as int));
                        match parse_nt::<A>(input.rest()) {
                            Ok((vs, k2)) => {
                                assert(old_items + (seq![v] + vs) =~= old_items.push(v) + vs);
                            },
                            Err(_) => {},
                        }
                        taken = taken + k;
                    }
                    items.push(x);
                    proof {
                        assert(items.deep_view() =~= old_items.push(v));
                    }
                },
                None => {
                    proof {
                        assert(items.deep_view() + Seq::<A::V>::empty() =~= items.deep_view());
                        assert(input.rest() =~= s0.skip((taken + k) as int));
                    }
                    return Ok(Nt(items));
                },
            }
        }
    }

    proof fn lemma_parse_inline_roundtrip(v: Seq<A::V>, rest: Seq<u8>) {
        lemma_parse_nt_roundtrip::<A>(v, rest);
    }

    proof fn lemma_parse_inline_canonical(s: Seq<u8>) {
        lemma_parse_nt_canonical::<A>(s);
    }
}

} // verus!

verus! {

/// Items that end with a `None` that may carry extra data (which is not encoded).
pub trait EntOutput<E> {
    /// Which item sequences can be written.
    spec fn spec_ent_valid(&self) -> bool;

    /// The bytes written.
    spec fn spec_ent_output(&self) -> Seq<u8>;

    /// Write the items as `Some`, then the `None` with the extra data.
    fn ent_output(&self, extra: &E, output: &mut Vec<u8>)
        ensures
            final(output)@ == old(output)@ + self.spec_ent_output(),
    ;
}

impl<A: Niched, E> EntOutput<E> for Vec<A> {
    open spec fn spec_ent_valid(&self) -> bool {
        <Nt<A> as ToOutput>::spec_valid(self.deep_view())
    }

    open spec fn spec_ent_output(&self) -> Seq<u8> {
        <Nt<A> as ToOutput>::spec_output(self.deep_view())
    }

    fn ent_output(&self, extra: &E, output: &mut Vec<u8>) {
        items_to_output(self, output);
        let none: Option<A> = None;
        none.to_output(output);
        proof {
            assert(output@ =~= old(output)@ + (concat_outputs::<A>(self.deep_view()) + <Option<A> as ToOutput>::spec_output(None)));
        }
    }
}

/// Items ended by a `None` that carries extra data.
pub struct Ent<A, E> {
    pub extra: crate::extras::Extras<E>,
    pub items: Nt<A>,
}

impl<A: DeepView, E> DeepView for Ent<A, E> {
    type V = Seq<A::V>;

    open spec fn deep_view(&self) -> Seq<A::V> {
        self.items.deep_view()
    }
}

impl<A: Niched, E> ToOutput for Ent<A, E> {
    open spec fn spec_valid(v: Seq<A::V>) -> bool {
        <Nt<A> as ToOutput>::spec_valid(v)
    }

    open spec fn spec_output(v: Seq<A::V>) -> Seq<u8> {
        <Nt<A> as ToOutput>::spec_output(v)
    }

    fn to_output(&self, output: &mut Vec<u8>) {
        self.items.0.ent_output(&self.extra.0, output);
    }
}

impl<A: Niched, E> Ent<A, E> {
    /// Decode the items, with the extra data that the input was given.
    pub fn parse_inline(input: &mut Input, extra: E) -> (res: Result<Self, Error>)
        ensures
            match parse_nt::<A>(old(input).rest()) {
                Ok((vs, k)) => res matches Ok(x) && x.deep_view() == vs && x.extra.0 == extra
                    && k <= old(input).rest().len()
                    && final(input).rest() == old(input).rest().skip(k as int),
                Err(e) => res == Err::<Self, Error>(e),
            },
    {
        let items = Nt::<A>::parse_inline(input)?;
        Ok(Ent { extra: crate::extras::Extras(extra), items })
    }
}

} // verus!
