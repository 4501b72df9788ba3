use vstd::prelude::*;
use crate::hamt::HamtSet;

verus! {

/// A set of hashes held as a trie with one level per hash byte: a slot holds one rest
/// of a hash until a second hash shares its bytes so far, and then a node one level
/// down. This is the shape of the hash trie, without values.
pub struct AmtSet {
    set: HamtSet,
}

impl View for AmtSet {
    type V = Set<Seq<u8>>;

    /// The hashes present, as their 32 bytes.
    closed spec fn view(&self) -> Set<Seq<u8>> {
        self.set@
    }
}

impl AmtSet {
    /// An empty set.
    pub fn new() -> (r: Self)
        ensures
            r@ == Set::<Seq<u8>>::empty(),
    {
        AmtSet { set: HamtSet::new() }
    }

    /// Add `hash`; true when it was not present before.
    pub fn insert(&mut self, hash: crate::hash::Hash) -> (r: bool)
        ensures
            final(self)@ == old(self)@.insert(hash.deep_view()),
            r == !old(self)@.contains(hash.deep_view()),
    {
        self.set.insert(hash)
    }

    /// Whether `hash` is present.
    pub fn contains(&self, hash: crate::hash::Hash) -> (r: bool)
        ensures
            r == self@.contains(hash.deep_view()),
    {
        self.set.contains(hash)
    }
}

/// An empty set.
impl Default for AmtSet {
    fn default() -> (r: Self)
        ensures
            r@ == Set::<Seq<u8>>::empty(),
    {
        AmtSet::new()
    }
}

} // verus!
