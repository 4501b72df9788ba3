use vstd::prelude::*;

verus! {

/// `s` without its first `i` elements (`i` as a machine index).
pub open spec fn skip_u(s: Seq<u8>, i: usize) -> Seq<u8> {
    s.skip(i as int)
}

/// The element of `s` at machine index `i`.
pub open spec fn at_u(s: Seq<u8>, i: usize) -> u8 {
    s[i as int]
}

/// Equality of two byte strings.
pub fn bytes_eq(a: &[u8], b: &[u8]) -> (r: bool)
    ensures
        r == (a@ == b@),
{
    if a.len() != b.len() {
        return false;
    }
    let mut i: usize = 0;
    while i < a.len()
        invariant
            i <= a@.len(),
            a@.len() == b@.len(),
            forall|j: int| 0 <= j < i ==> a@[j] == b@[j],
        decreases a@.len() - i,
    {
        if a[i] != b[i] {
            return false;
        }
        i = i + 1;
    }
    proof {
        assert(a@ =~= b@);
    }
    true
}

/// Dropping one more element after `i` is skipping `i + 1`.
pub proof fn lemma_skip_step(s: Seq<u8>, i: usize)
    requires
        i < s.len(),
    ensures
        skip_u(s, i).len() > 0,
        skip_u(s, i)[0] == at_u(s, i),
        skip_u(s, i).drop_first() == s.skip(i + 1),
{
    assert(skip_u(s, i).drop_first() =~= s.skip(i + 1));
}

/// Skipping nothing leaves the sequence.
pub proof fn lemma_skip_zero(s: Seq<u8>)
    ensures
        skip_u(s, 0) == s,
{
    assert(s.skip(0) =~= s);
}

} // verus!
