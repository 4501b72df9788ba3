use vstd::prelude::*;

verus! {

/// The spare encodings of a one-byte type whose values end below `k`: the single
/// bytes `k`, `k + 1`, ... up to `255`, taken in that order.
pub struct IncrByteNiche {
    pub k: u8,
}

/// Gives the spare encodings left after the first one is taken.
pub trait NextNiche: Sized {
    /// The spare encodings after the first; `None` when it was the last one.
    spec fn spec_next_niche(&self) -> Option<Self>;

    /// The spare encodings after the first.
    fn next_niche(&self) -> (r: Option<Self>)
        ensures
            r == self.spec_next_niche(),
    ;
}

/// Keeps a further niche only where there is one.
pub trait WrapNext {
    /// Whether a further niche exists.
    spec fn spec_has_next(&self) -> bool;

    /// `next` where a further niche exists, nothing otherwise.
    fn wrap<J>(&self, next: J) -> (r: Option<J>)
        ensures
            r == if self.spec_has_next() {
                Some(next)
            } else {
                None::<J>
            },
    ;
}

impl WrapNext for bool {
    open spec fn spec_has_next(&self) -> bool {
        *self
    }

    fn wrap<J>(&self, next: J) -> (r: Option<J>) {
        if *self {
            Some(next)
        } else {
            None
        }
    }
}

impl IncrByteNiche {
    /// The first spare encoding.
    pub fn niche(&self) -> (r: [u8; 1])
        ensures
            r@ == seq![self.k],
    {
        let r = [self.k];
        proof {
            assert(r@ =~= seq![self.k]);
        }
        r
    }
}

impl NextNiche for IncrByteNiche {
    open spec fn spec_next_niche(&self) -> Option<IncrByteNiche> {
        if self.k < 255 {
            Some(IncrByteNiche { k: (self.k + 1) as u8 })
        } else {
            None
        }
    }

    fn next_niche(&self) -> (r: Option<IncrByteNiche>) {
        let more = self.k < 255;
        if more {
            more.wrap(IncrByteNiche { k: self.k + 1 })
        } else {
            more.wrap(IncrByteNiche { k: self.k })
        }
    }
}

} // verus!
