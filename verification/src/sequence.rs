use vstd::prelude::*;
use crate::error::Error;
use crate::input::Input;
use crate::traits::{ToOutput, ParseInline, Parse};

verus! {

/// The encodings of the items of `s`, one after another.
pub open spec fn concat_outputs<T: ToOutput>(s: Seq<T::V>) -> Seq<u8>
    decreases s.len(),
{
    if s.len() == 0 {
        Seq::empty()
    } else {
        T::spec_output(s[0]) + concat_outputs::<T>(s.drop_first())
    }
}

/// Every item is valid.
pub open spec fn all_valid<T: ToOutput>(s: Seq<T::V>) -> bool {
    forall|i: int| 0 <= i < s.len() ==> T::spec_valid(#[trigger] s[i])
}

/// Every item is valid and has a nonempty encoding.
pub open spec fn all_valid_nonempty<T: ToOutput>(s: Seq<T::V>) -> bool {
    forall|i: int| 0 <= i < s.len() ==> T::spec_valid(#[trigger] s[i]) && T::spec_output(s[i]).len() > 0
}

/// Appending an item appends its encoding.
pub proof fn lemma_concat_push<T: ToOutput>(s: Seq<T::V>, v: T::V)
    ensures
        concat_outputs::<T>(s.push(v)) == concat_outputs::<T>(s) + T::spec_output(v),
    decreases s.len(),
{
    if s.len() == 0 {
        assert(s.push(v).drop_first() =~= Seq::<T::V>::empty());
        assert(concat_outputs::<T>(s.push(v).drop_first()) == Seq::<u8>::empty());
        assert(concat_outputs::<T>(s) == Seq::<u8>::empty());
        assert(T::spec_output(v) + Seq::<u8>::empty() =~= T::spec_output(v));
        assert(Seq::<u8>::empty() + T::spec_output(v) =~= T::spec_output(v));
    } else {
        assert(s.push(v).drop_first() =~= s.drop_first().push(v));
        lemma_concat_push::<T>(s.drop_first(), v);
        assert(concat_outputs::<T>(s.push(v)) =~= concat_outputs::<T>(s) + T::spec_output(v));
    }
}

/// Decode exactly `n` items from the front of `s`; the number is the count of bytes
/// taken.
pub open spec fn parse_n<T: ParseInline>(n: nat, s: Seq<u8>) -> Result<(Seq<T::V>, nat), Error>
    decreases n,
{
    if n == 0 {
        Ok((Seq::empty(), 0))
    } else {
        match T::spec_parse_inline(s) {
            Ok((v, k)) => match parse_n::<T>((n - 1) as nat, s.skip(k as int)) {
                Ok((vs, k2)) => Ok((seq![v] + vs, k + k2)),
                Err(e) => Err(e),
            },
            Err(e) => Err(e),
        }
    }
}

/// Decoding the encodings of valid items gives them back, whatever follows.
pub proof fn lemma_parse_n_roundtrip<T: ParseInline>(s: Seq<T::V>, rest: Seq<u8>)
    requires
        all_valid::<T>(s),
    ensures
        parse_n::<T>(s.len(), concat_outputs::<T>(s) + rest) == Ok::<(Seq<T::V>, nat), Error>(
            (s, concat_outputs::<T>(s).len()),
        ),
    decreases s.len(),
{
    if s.len() == 0 {
        assert(s =~= Seq::<T::V>::empty());
    } else {
        let t = s.drop_first();
        let tail = concat_outputs::<T>(t) + rest;
        let whole = concat_outputs::<T>(s) + rest;
        assert(whole =~= T::spec_output(s[0]) + tail);
        assert(T::spec_valid(s[0]));
        T::lemma_parse_inline_roundtrip(s[0], tail);
        assert(whole.skip(T::spec_output(s[0]).len() as int) =~= tail);
        assert forall|i: int| 0 <= i < t.len() implies T::spec_valid(#[trigger] t[i]) by {
            assert(t[i] == s[i + 1]);
        }
        lemma_parse_n_roundtrip::<T>(t, rest);
        assert(seq![s[0]] + t =~= s);
    }
}

/// What decodes as `n` items is the encoding of those valid items.
pub proof fn lemma_parse_n_canonical<T: ParseInline>(n: nat, s: Seq<u8>)
    ensures
        parse_n::<T>(n, s) matches Ok((vs, k)) ==> {
            &&& vs.len() == n
            &&& k <= s.len()
            &&& s.take(k as int) == concat_outputs::<T>(vs)
            &&& all_valid::<T>(vs)
        },
    decreases n,
{
    if n == 0 {
        assert(s.take(0) =~= Seq::<u8>::empty());
    } else {
        T::lemma_parse_inline_canonical(s);
        match T::spec_parse_inline(s) {
            Ok((v, k)) => {
                lemma_parse_n_canonical::<T>((n - 1) as nat, s.skip(k as int));
                match parse_n::<T>((n - 1) as nat, s.skip(k as int)) {
                    Ok((vs, k2)) => {
                        let all = seq![v] + vs;
                        assert(all.drop_first() =~= vs);
                        assert(s.take((k + k2) as int) =~= s.take(k as int) + s.skip(k as int).take(k2 as int));
                        assert forall|i: int| 0 <= i < all.len() implies T::spec_valid(#[trigger] all[i]) by {
                            if i > 0 {
                                assert(all[i] == vs[i - 1]);
                            }
                        }
                    },
                    Err(_) => {},
                }
            },
            Err(_) => {},
        }
    }
}

/// Decode items until `s` ends. An item that takes no bytes would never end the
/// input, and is refused.
pub open spec fn parse_items<T: ParseInline>(s: Seq<u8>) -> Result<Seq<T::V>, Error>
    decreases s.len(),
{
    if s.len() == 0 {
        Ok(Seq::empty())
    } else {
        match T::spec_parse_inline(s) {
            Ok((v, k)) => if k == 0 || k > s.len() {
                Err(Error::Parse)
            } else {
                match parse_items::<T>(s.skip(k as int)) {
                    Ok(vs) => Ok(seq![v] + vs),
                    Err(e) => Err(e),
                }
            },
            Err(e) => Err(e),
        }
    }
}

/// Decoding the encodings of valid items with nonempty encodings gives them back.
pub proof fn lemma_parse_items_roundtrip<T: ParseInline>(s: Seq<T::V>)
    requires
        all_valid_nonempty::<T>(s),
    ensures
        parse_items::<T>(concat_outputs::<T>(s)) == Ok::<Seq<T::V>, Error>(s),
    decreases s.len(),
{
    if s.len() == 0 {
        assert(s =~= Seq::<T::V>::empty());
    } else {
        let t = s.drop_first();
        let tail = concat_outputs::<T>(t);
        let whole = concat_outputs::<T>(s);
        assert(T::spec_valid(s[0]) && T::spec_output(s[0]).len() > 0);
        T::lemma_parse_inline_roundtrip(s[0], tail);
        assert(whole.skip(T::spec_output(s[0]).len() as int) =~= tail);
        assert forall|i: int| 0 <= i < t.len() implies T::spec_valid(#[trigger] t[i]) && T::spec_output(t[i]).len() > 0 by {
            assert(t[i] == s[i + 1]);
        }
        lemma_parse_items_roundtrip::<T>(t);
        assert(seq![s[0]] + t =~= s);
    }
}

/// What decodes is the encoding of the decoded items, all valid with nonempty
/// encodings.
pub proof fn lemma_parse_items_canonical<T: ParseInline>(s: Seq<u8>)
    ensures
        parse_items::<T>(s) matches Ok(vs) ==> s == concat_outputs::<T>(vs) && all_valid_nonempty::<T>(vs),
    decreases s.len(),
{
    if s.len() == 0 {
        assert(s =~= Seq::<u8>::empty());
    } else {
        T::lemma_parse_inline_canonical(s);
        match T::spec_parse_inline(s) {
            Ok((v, k)) => {
                if k > 0 && k <= s.len() {
                    lemma_parse_items_canonical::<T>(s.skip(k as int));
                    match parse_items::<T>(s.skip(k as int)) {
                        Ok(vs) => {
                            let all = seq![v] + vs;
                            assert(all.drop_first() =~= vs);
                            assert(s =~= s.take(k as int) + s.skip(k as int));
                            assert forall|i: int| 0 <= i < all.len() implies T::spec_valid(#[trigger] all[i])
                                && T::spec_output(all[i]).len() > 0 by {
                                if i > 0 {
                                    assert(all[i] == vs[i - 1]);
                                }
                            }
                        },
                        Err(_) => {},
                    }
                }
            },
            Err(_) => {},
        }
    }
}

/// Append the encodings of the items of `v`, one after another.
pub fn items_to_output<T: ToOutput>(v: &Vec<T>, output: &mut Vec<u8>)
    ensures
        final(output)@ == old(output)@ + concat_outputs::<T>(v.deep_view()),
{
    let ghost start = output@;
    let mut i: usize = 0;
    while i < v.len()
        invariant
            i <= v.len(),
            output@ == start + concat_outputs::<T>(v.deep_view().take(i as int)),
        decreases v.len() - i,
    {
        let ghost before = output@;
        v[i].to_output(output);
        proof {
            assert(v.deep_view().take(i + 1) =~= v.deep_view().take(i as int).push(v.deep_view()[i as int]));
            lemma_concat_push::<T>(v.deep_view().take(i as int), v.deep_view()[i as int]);
            assert(output@ =~= start + concat_outputs::<T>(v.deep_view().take(i + 1)));
        }
        i = i + 1;
    }
    proof {
        assert(v.deep_view().take(v.len() as int) =~= v.deep_view());
    }
}

/// Decode exactly `n` items from the front of `input`.
pub fn parse_vec_n<T: ParseInline>(input: &mut Input, n: usize) -> (res: Result<Vec<T>, Error>)
    ensures
        match parse_n::<T>(n as nat, old(input).rest()) {
            Ok((vs, k)) => res matches Ok(x) && x.deep_view() == vs && k <= old(input).rest().len()
                && final(input).rest() == old(input).rest().skip(k as int),
            Err(e) => res == Err::<Vec<T>, Error>(e),
        },
{
    let ghost s0 = input.rest();
    let mut items: Vec<T> = Vec::new();
    let ghost mut taken: nat = 0;
    let mut i: usize = 0;
    while i < n
        invariant
            s0 == old(input).rest(),
            i <= n,
            items.deep_view().len() == i,
            taken <= s0.len(),
            input.rest() == s0.skip(taken as int),
            parse_n::<T>(n as nat, s0) == match parse_n::<T>((n - i) as nat, input.rest()) {
                Ok((vs, k)) => Ok((items.deep_view() + vs, taken + k)),
                Err(e) => Err::<(Seq<T::V>, nat), Error>(e),
            },
        decreases n - i,
    {
        let ghost rest = input.rest();
        proof {
            T::lemma_parse_inline_canonical(rest);
        }
        let x = match T::parse_inline(input) {
            Ok(x) => x,
            Err(e) => {
                return Err(e);
            },
        };
        let ghost old_items = items.deep_view();
        let ghost v = T::spec_parse_inline(rest)->Ok_0.0;
        let ghost k = T::spec_parse_inline(rest)->Ok_0.1;
        proof {
            assert(input.rest() =~= s0.skip((taken + k) as int));
            match parse_n::<T>((n - i - 1) as nat, input.rest()) {
                Ok((vs, k2)) => {
                    assert(old_items + (seq![v] + vs) =~= old_items.push(v) + vs);
                },
                Err(_) => {},
            }
            taken = taken + k;
        }
        items.push(x);
        proof {
            assert(items.deep_view() =~= old_items.push(v));
        }
        i = i + 1;
    }
    proof {
        assert(items.deep_view() + Seq::<T::V>::empty() =~= items.deep_view());
    }
    Ok(items)
}

/// Decode items until `input` ends.
pub fn parse_vec<T: ParseInline>(input: Input) -> (res: Result<Vec<T>, Error>)
    ensures
        match parse_items::<T>(input.rest()) {
            Ok(vs) => res matches Ok(x) && x.deep_view() == vs,
            Err(e) => res == Err::<Vec<T>, Error>(e),
        },
{
    let mut inp = input;
    let ghost s0 = inp.rest();
    let mut items: Vec<T> = Vec::new();
    loop
        invariant
            s0 == input.rest(),
            parse_items::<T>(s0) == match parse_items::<T>(inp.rest()) {
                Ok(vs) => Ok(items.deep_view() + vs),
                Err(e) => Err::<Seq<T::V>, Error>(e),
            },
        decreases inp.rest().len(),
    {
        let left = inp.remaining();
        if left == 0 {
            proof {
                assert(items.deep_view() + Seq::<T::V>::empty() =~= items.deep_view());
            }
            return Ok(items);
        }
        let ghost rest = inp.rest();
        proof {
            T::lemma_parse_inline_canonical(rest);
        }
        let x = match T::parse_inline(&mut inp) {
            Ok(x) => x,
            Err(e) => {
                return Err(e);
            },
        };
        let after = inp.remaining();
        if after == left {
            return Err(Error::Parse);
        }
        let ghost old_items = items.deep_view();
        let ghost v = T::spec_parse_inline(rest)->Ok_0.0;
        proof {
            match parse_items::<T>(inp.rest()) {
                Ok(vs) => {
                    assert(old_items + (seq![v] + vs) =~= old_items.push(v) + vs);
                },
                Err(_) => {},
            }
        }
        items.push(x);
        proof {
            assert(items.deep_view() =~= old_items.push(v));
        }
    }
}

impl<T: ToOutput> ToOutput for Vec<T> {
    /// Items are valid and none has an empty encoding (the end of input delimits the
    /// items, so an empty one could not be found again).
    open spec fn spec_valid(v: Seq<T::V>) -> bool {
        all_valid_nonempty::<T>(v)
    }

    open spec fn spec_output(v: Seq<T::V>) -> Seq<u8> {
        concat_outputs::<T>(v)
    }

    fn to_output(&self, output: &mut Vec<u8>) {
        items_to_output(self, output);
    }
}

impl<T: ParseInline> Parse for Vec<T> {
    open spec fn spec_parse(s: Seq<u8>) -> Result<Seq<T::V>, Error> {
        parse_items::<T>(s)
    }

    fn parse(input: Input) -> (res: Result<Vec<T>, Error>) {
        parse_vec(input)
    }

    proof fn lemma_parse_roundtrip(v: Seq<T::V>) {
        lemma_parse_items_roundtrip::<T>(v);
    }

    proof fn lemma_parse_canonical(s: Seq<u8>) {
        lemma_parse_items_canonical::<T>(s);
    }
}

/// Collections encoded as their items one after another.
pub trait PlainCollection {}

/// Collections that hold their items in order, like a vector.
pub trait VecLike {}

impl<T> PlainCollection for Vec<T> {}

impl<T> VecLike for Vec<T> {}

/// Items encoded one after another, with nothing around them; decoded up to the end
/// of the input.
pub struct Sequence<T>(pub Vec<T>);

impl<T: DeepView> DeepView for Sequence<T> {
    type V = Seq<T::V>;

    open spec fn deep_view(&self) -> Seq<T::V> {
        self.0.deep_view()
    }
}

impl<T: ToOutput> ToOutput for Sequence<T> {
    open spec fn spec_valid(v: Seq<T::V>) -> bool {
        all_valid_nonempty::<T>(v)
    }

    open spec fn spec_output(v: Seq<T::V>) -> Seq<u8> {
        concat_outputs::<T>(v)
    }

    fn to_output(&self, output: &mut Vec<u8>) {
        items_to_output(&self.0, output);
    }
}

impl<T: ParseInline> Parse for Sequence<T> {
    open spec fn spec_parse(s: Seq<u8>) -> Result<Seq<T::V>, Error> {
        parse_items::<T>(s)
    }

    fn parse(input: Input) -> (res: Result<Sequence<T>, Error>) {
        match parse_vec(input) {
            Ok(v) => Ok(Sequence(v)),
            Err(e) => Err(e),
        }
    }

    proof fn lemma_parse_roundtrip(v: Seq<T::V>) {
        lemma_parse_items_roundtrip::<T>(v);
    }

    proof fn lemma_parse_canonical(s: Seq<u8>) {
        lemma_parse_items_canonical::<T>(s);
    }
}

impl<T> PlainCollection for Sequence<T> {}

impl<T> VecLike for Sequence<T> {}

/// Items encoded one after another (decoded elsewhere, with a count known from
/// context).
pub struct ExtraArray<T>(pub Vec<T>);

impl<T: DeepView> DeepView for ExtraArray<T> {
    type V = Seq<T::V>;

    open spec fn deep_view(&self) -> Seq<T::V> {
        self.0.deep_view()
    }
}

impl<T: ToOutput> ToOutput for ExtraArray<T> {
    open spec fn spec_valid(v: Seq<T::V>) -> bool {
        all_valid::<T>(v)
    }

    open spec fn spec_output(v: Seq<T::V>) -> Seq<u8> {
        concat_outputs::<T>(v)
    }

    fn to_output(&self, output: &mut Vec<u8>) {
        items_to_output(&self.0, output);
    }
}

} // verus!
