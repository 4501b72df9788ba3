use vstd::prelude::*;
use crate::error::Error;
use crate::input::Input;
use crate::traits::{ToOutput, ParseInline};

verus! {

/// Types with a single value, which carries no information.
pub trait Monostate: Sized {
    /// The single value.
    fn value() -> Self;

    /// Drop the value.
    fn consume(self);
}

impl Monostate for () {
    fn value() -> Self {
    }

    fn consume(self) {
    }
}

/// A single value with an empty encoding that gives its enclosing value no spare
/// encodings.
#[derive(Clone, Copy)]
pub struct NicheCut;

impl DeepView for NicheCut {
    type V = ();

    open spec fn deep_view(&self) -> () {
        ()
    }
}

impl Monostate for NicheCut {
    fn value() -> Self {
        NicheCut
    }

    fn consume(self) {
    }
}

impl ToOutput for NicheCut {
    open spec fn spec_valid(v: ()) -> bool {
        true
    }

    open spec fn spec_output(v: ()) -> Seq<u8> {
        Seq::empty()
    }

    fn to_output(&self, output: &mut Vec<u8>) {
        proof {
            assert(output@ =~= output@ + Seq::<u8>::empty());
        }
    }
}

impl ParseInline for NicheCut {
    open spec fn spec_parse_inline(s: Seq<u8>) -> Result<((), nat), Error> {
        Ok(((), 0))
    }

    fn parse_inline(input: &mut Input) -> (res: Result<NicheCut, Error>) {
        proof {
            assert(input.rest().skip(0) =~= input.rest());
        }
        Ok(NicheCut)
    }

    proof fn lemma_parse_inline_roundtrip(v: (), rest: Seq<u8>) {
    }

    proof fn lemma_parse_inline_canonical(s: Seq<u8>) {
        assert(s.take(0) =~= Seq::<u8>::empty());
    }
}

/// Items, each given with the single value of `M` as a header.
pub struct MonostateHeaders<A, M> {
    pub inner: Vec<A>,
    monostate: M,
}

/// The items of a `MonostateHeaders`, each paired with the header value.
pub struct IntoIter<A, M> {
    rev: Vec<A>,
    monostate: M,
}

impl<A, M: Monostate + Copy> MonostateHeaders<A, M> {
    /// Items with the header value.
    pub fn new(inner: Vec<A>) -> (r: Self)
        ensures
            r.items() == inner@,
    {
        MonostateHeaders { inner, monostate: M::value() }
    }

    /// The header value.
    pub closed spec fn header(&self) -> M {
        self.monostate
    }

    /// The items.
    pub closed spec fn items(&self) -> Seq<A> {
        self.inner@
    }

    /// Go through the items in order.
    pub fn into_iter(self) -> (r: IntoIter<A, M>)
        ensures
            r.remaining() == self.items(),
            r.header() == self.header(),
    {
        let mut inner = self.inner;
        let ghost all = inner@;
        let mut rev: Vec<A> = Vec::new();
        while inner.len() > 0
            invariant
                all == inner@ + rev@.reverse(),
            decreases inner@.len(),
        {
            let ghost before = inner@;
            let ghost rbefore = rev@;
            let x = inner.pop().unwrap();
            rev.push(x);
            proof {
                assert(before =~= inner@.push(x));
                assert(rev@.reverse() =~= seq![x] + rbefore.reverse());
                assert(all =~= inner@ + rev@.reverse());
            }
        }
        proof {
            assert(all =~= rev@.reverse());
        }
        IntoIter { rev, monostate: self.monostate }
    }
}

impl<A, M: Monostate + Copy> IntoIter<A, M> {
    /// The items not yet taken, in order.
    pub closed spec fn remaining(&self) -> Seq<A> {
        self.rev@.reverse()
    }

    /// The header value.
    pub closed spec fn header(&self) -> M {
        self.monostate
    }

    /// The next item with the header, if any is left.
    pub fn next(&mut self) -> (r: Option<(M, A)>)
        ensures
            old(self).remaining().len() == 0 ==> r is None && final(self).remaining() == old(self).remaining(),
            old(self).remaining().len() > 0 ==> r == Some((old(self).header(), old(self).remaining()[0]))
                && final(self).remaining() == old(self).remaining().drop_first(),
            final(self).header() == old(self).header(),
    {
        let ghost before = self.rev@;
        match self.rev.pop() {
            Some(x) => {
                proof {
                    assert(before =~= self.rev@.push(x));
                    assert(before.reverse() =~= seq![x] + self.rev@.reverse());
                    assert(before.reverse().drop_first() =~= self.rev@.reverse());
                }
                Some((self.monostate, x))
            },
            None => {
                proof {
                    assert(before.reverse().len() == 0);
                }
                None
            },
        }
    }
}

} // verus!
