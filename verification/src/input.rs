use vstd::prelude::*;
use crate::error::Error;

verus! {

/// A cursor over the bytes that a value is decoded from.
pub struct Input<'a> {
    data: &'a [u8],
    pos: usize,
}

impl<'a> Input<'a> {
    #[verifier::type_invariant]
    spec fn inv(&self) -> bool {
        self.pos <= self.data@.len()
    }

    /// Bytes not yet consumed.
    pub closed spec fn rest(&self) -> Seq<u8> {
        self.data@.subrange(self.pos as int, self.data@.len() as int)
    }

    /// Start decoding at the first byte of `data`.
    pub fn new(data: &'a [u8]) -> (r: Self)
        ensures
            r.rest() == data@,
    {
        let r = Input { data, pos: 0 };
        assert(r.rest() =~= data@);
        r
    }

    /// Number of bytes not yet consumed.
    pub fn remaining(&self) -> (n: usize)
        ensures
            n == self.rest().len(),
    {
        proof { use_type_invariant(self); }
        self.data.len() - self.pos
    }

    /// Consume exactly `n` bytes.
    pub fn parse_chunk(&mut self, n: usize) -> (r: Result<&'a [u8], Error>)
        ensures
            n <= old(self).rest().len() ==> (r matches Ok(c) && c@ == old(self).rest().take(n as int)
                && final(self).rest() == old(self).rest().skip(n as int)),
            n > old(self).rest().len() ==> r == Err::<&'a [u8], Error>(Error::EndOfInput),
    {
        proof { use_type_invariant(&*self); }
        if n > self.data.len() - self.pos {
            return Err(Error::EndOfInput);
        }
        let start = self.pos;
        let chunk = &self.data[start..start + n];
        self.pos = start + n;
        proof {
            assert(chunk@ =~= old(self).rest().take(n as int));
            assert(self.rest() =~= old(self).rest().skip(n as int));
        }
        Ok(chunk)
    }

    /// Look at the next `n` bytes without consuming them.
    pub fn peek_chunk(&self, n: usize) -> (r: Option<&'a [u8]>)
        ensures
            n <= self.rest().len() ==> (r matches Some(c) && c@ == self.rest().take(n as int)),
            n > self.rest().len() ==> r is None,
    {
        proof { use_type_invariant(self); }
        if n > self.data.len() - self.pos {
            return None;
        }
        let c = &self.data[self.pos..self.pos + n];
        proof {
            assert(c@ =~= self.rest().take(n as int));
        }
        Some(c)
    }

    /// Consume a single byte.
    pub fn parse_u8(&mut self) -> (r: Result<u8, Error>)
        ensures
            old(self).rest().len() >= 1 ==> r == Ok::<u8, Error>(old(self).rest()[0])
                && final(self).rest() == old(self).rest().skip(1),
            old(self).rest().len() == 0 ==> r == Err::<u8, Error>(Error::EndOfInput),
    {
        proof { use_type_invariant(&*self); }
        if self.pos >= self.data.len() {
            return Err(Error::EndOfInput);
        }
        let b = self.data[self.pos];
        self.pos = self.pos + 1;
        proof {
            assert(self.rest() =~= old(self).rest().skip(1));
        }
        Ok(b)
    }

    /// Consume everything that is left.
    pub fn parse_all(&mut self) -> (c: &'a [u8])
        ensures
            c@ == old(self).rest(),
            final(self).rest() == Seq::<u8>::empty(),
    {
        proof { use_type_invariant(&*self); }
        let start = self.pos;
        let len = self.data.len();
        let c = &self.data[start..len];
        self.pos = len;
        proof {
            assert(self.rest() =~= Seq::<u8>::empty());
        }
        c
    }

    /// Succeed only when nothing is left.
    pub fn empty(&self) -> (r: Result<(), Error>)
        ensures
            r is Ok <==> self.rest().len() == 0,
            r is Err ==> r == Err::<(), Error>(Error::ExtraInputLeft),
    {
        proof { use_type_invariant(self); }
        if self.pos == self.data.len() {
            Ok(())
        } else {
            Err(Error::ExtraInputLeft)
        }
    }

    /// Move the next `n` bytes into an input of their own.
    pub fn split(&mut self, n: usize) -> (r: Result<Input<'a>, Error>)
        ensures
            n <= old(self).rest().len() ==> (r matches Ok(sub) && sub.rest() == old(self).rest().take(n as int)
                && final(self).rest() == old(self).rest().skip(n as int)),
            n > old(self).rest().len() ==> r is Err && r == Err::<Input<'a>, Error>(Error::EndOfInput),
    {
        match self.parse_chunk(n) {
            Ok(c) => Ok(Input::new(c)),
            Err(e) => Err(e),
        }
    }
}

} // verus!
