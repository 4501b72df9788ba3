use vstd::prelude::*;

verus! {

/// `s` repeated `n` times.
pub open spec fn repeat(s: Seq<u8>, n: nat) -> Seq<u8>
    decreases n,
{
    if n == 0 {
        Seq::empty()
    } else {
        repeat(s, (n - 1) as nat) + s
    }
}

/// The spare encoding of an array of `n` items whose item type needs a tag: the item's
/// spare encoding in every place. It stays the same for the nestings that follow.
pub struct RepeatNiche {
    pub item: Vec<u8>,
    pub n: usize,
}

impl RepeatNiche {
    /// The spare encoding: `item` repeated `n` times.
    pub fn niche(&self) -> (r: Vec<u8>)
        ensures
            r@ == repeat(self.item@, self.n as nat),
    {
        let mut r: Vec<u8> = Vec::new();
        let mut i: usize = 0;
        while i < self.n
            invariant
                i <= self.n,
                r@ == repeat(self.item@, i as nat),
            decreases self.n - i,
        {
            let mut j: usize = 0;
            let ghost before = r@;
            while j < self.item.len()
                invariant
                    j <= self.item@.len(),
                    r@ == before + self.item@.take(j as int),
                decreases self.item@.len() - j,
            {
                r.push(self.item[j]);
                proof {
                    assert(self.item@.take(j + 1) =~= self.item@.take(j as int).push(self.item@[j as int]));
                }
                j = j + 1;
            }
            proof {
                assert(self.item@.take(self.item@.len() as int) =~= self.item@);
            }
            i = i + 1;
        }
        r
    }
}

/// A niche that is used as it is, but whose type marks the place where the spare
/// encodings of an enclosing value end.
pub struct ForceCut<M>(pub M);

impl ForceCut<crate::incr_byte_niche::IncrByteNiche> {
    /// The spare encoding of the wrapped niche.
    pub fn niche(&self) -> (r: [u8; 1])
        ensures
            r@ == seq![self.0.k],
    {
        self.0.niche()
    }
}

impl ForceCut<crate::decr_byte_niche::DecrByteNiche> {
    /// The spare encoding of the wrapped niche.
    pub fn niche(&self) -> (r: [u8; 1])
        ensures
            r@ == seq![self.0.k],
    {
        self.0.niche()
    }
}

} // verus!
