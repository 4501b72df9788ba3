use std::collections::VecDeque;
use vstd::prelude::*;
use crate::error::Error;
use crate::input::Input;
use crate::traits::{ToOutput, ParseInline, Parse};
use crate::sequence::{concat_outputs, all_valid_nonempty, lemma_concat_push, parse_items, parse_vec,
    lemma_parse_items_roundtrip, lemma_parse_items_canonical, PlainCollection, VecLike};

verus! {

/// A double-ended queue is encoded as its items from front to back, like a vector.
impl<T: ToOutput> ToOutput for VecDeque<T> {
    open spec fn spec_valid(v: Seq<T::V>) -> bool {
        all_valid_nonempty::<T>(v)
    }

    open spec fn spec_output(v: Seq<T::V>) -> Seq<u8> {
        concat_outputs::<T>(v)
    }

    fn to_output(&self, output: &mut Vec<u8>) {
        let ghost start = output@;
        let ghost dv = self.deep_view();
        let mut i: usize = 0;
        while i < self.len()
            invariant
                dv == self.deep_view(),
                dv.len() == self@.len(),
                i <= self@.len(),
                output@ == start + concat_outputs::<T>(dv.take(i as int)),
            decreases self@.len() - i,
        {
            self[i].to_output(output);
            proof {
                assert(dv[i as int] == self@[i as int].deep_view());
                assert(dv.take(i + 1) =~= dv.take(i as int).push(dv[i as int]));
                lemma_concat_push::<T>(dv.take(i as int), dv[i as int]);
                assert(output@ =~= start + concat_outputs::<T>(dv.take(i + 1)));
            }
            i = i + 1;
        }
        proof {
            assert(dv.take(i as int) =~= dv);
        }
    }
}

/// The queue holding the items of `v`, front to back.
pub fn from_vec<T>(v: Vec<T>) -> (r: VecDeque<T>)
    ensures
        r@ == v@,
{
    let ghost all = v@;
    let mut v = v;
    let mut rev: Vec<T> = Vec::new();
    while v.len() > 0
        invariant
            all == v@ + rev@.reverse(),
        decreases v@.len(),
    {
        let ghost before = v@;
        let ghost rbefore = rev@;
        let x = v.pop().unwrap();
        rev.push(x);
        proof {
            assert(before =~= v@.push(x));
            assert(rev@.reverse() =~= seq![x] + rbefore.reverse());
            assert(all =~= v@ + rev@.reverse());
        }
    }
    let mut q: VecDeque<T> = VecDeque::new();
    while rev.len() > 0
        invariant
            all == q@ + rev@.reverse(),
        decreases rev@.len(),
    {
        let ghost before = rev@;
        let ghost qbefore = q@;
        let x = rev.pop().unwrap();
        q.push_back(x);
        proof {
            assert(before =~= rev@.push(x));
            assert(before.reverse() =~= seq![x] + rev@.reverse());
            assert(all =~= q@ + rev@.reverse());
        }
    }
    proof {
        assert(all =~= q@);
    }
    q
}

/// The vector holding the items of `q`, front to back.
pub fn into_vec<T>(q: VecDeque<T>) -> (r: Vec<T>)
    ensures
        r@ == q@,
{
    let ghost all = q@;
    let mut q = q;
    let mut v: Vec<T> = Vec::new();
    while q.len() > 0
        invariant
            all == v@ + q@,
        decreases q@.len(),
    {
        let ghost before = q@;
        let x = q.pop_front().unwrap();
        v.push(x);
        proof {
            assert(before =~= seq![x] + q@);
            assert(all =~= v@ + q@);
        }
    }
    proof {
        assert(all =~= v@);
    }
    v
}

impl<T: ParseInline> Parse for VecDeque<T> {
    open spec fn spec_parse(s: Seq<u8>) -> Result<Seq<T::V>, Error> {
        parse_items::<T>(s)
    }

    fn parse(input: Input) -> (res: Result<VecDeque<T>, Error>) {
        let v = parse_vec(input)?;
        let ghost dv = v.deep_view();
        let q = from_vec(v);
        proof {
            assert(q.deep_view() =~= dv);
        }
        Ok(q)
    }

    proof fn lemma_parse_roundtrip(v: Seq<T::V>) {
        lemma_parse_items_roundtrip::<T>(v);
    }

    proof fn lemma_parse_canonical(s: Seq<u8>) {
        lemma_parse_items_canonical::<T>(s);
    }
}

impl<T> PlainCollection for VecDeque<T> {}

impl<T> VecLike for VecDeque<T> {}

} // verus!
