use std::cmp::Ordering;
use vstd::prelude::*;
use vstd::string::StringSliceAdditionalSpecFns;
use crate::ordering::{ByteOrd, compare_bytes};
use crate::traits::ToOutput;

verus! {

/// Text is encoded as its UTF-8 bytes, with nothing around them.
impl ToOutput for str {
    open spec fn spec_valid(v: Seq<char>) -> bool {
        true
    }

    open spec fn spec_output(v: Seq<char>) -> Seq<u8> {
        vstd::utf8::encode_utf8(v)
    }

    fn to_output(&self, output: &mut Vec<u8>) {
        let bytes = self.as_bytes();
        let ghost start = output@;
        let mut i: usize = 0;
        while i < bytes.len()
            invariant
                i <= bytes@.len(),
                output@ == start + bytes@.take(i as int),
            decreases bytes@.len() - i,
        {
            output.push(bytes[i]);
            proof {
                assert(bytes@.take(i + 1) =~= bytes@.take(i as int).push(bytes@[i as int]));
            }
            i = i + 1;
        }
        proof {
            assert(bytes@.take(bytes@.len() as int) =~= bytes@);
            assert(self.spec_bytes() == vstd::utf8::encode_utf8(self@));
        }
    }
}

/// Text compares by its UTF-8 bytes.
impl ByteOrd for str {
    fn bytes_cmp(&self, other: &Self) -> (r: Ordering) {
        compare_bytes(self.as_bytes(), other.as_bytes())
    }
}

} // verus!
