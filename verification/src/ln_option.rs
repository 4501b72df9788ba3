use std::cmp::Ordering;
use vstd::prelude::*;
use crate::traits::ToOutput;
use crate::ordering::{ByteOrd, lex_order};

verus! {

/// An optional value with an explicit one-byte tag: `0xff` then the value, or `0xfe`
/// alone for nothing. Nothing sorts before every value.
pub struct LnOption<T>(pub Option<T>);

impl<T: DeepView> DeepView for LnOption<T> {
    type V = Option<T::V>;

    open spec fn deep_view(&self) -> Option<T::V> {
        match self.0 {
            Some(x) => Some(x.deep_view()),
            None => None,
        }
    }
}

impl<T: ToOutput> ToOutput for LnOption<T> {
    open spec fn spec_valid(v: Option<T::V>) -> bool {
        match v {
            Some(x) => T::spec_valid(x),
            None => true,
        }
    }

    open spec fn spec_output(v: Option<T::V>) -> Seq<u8> {
        match v {
            Some(x) => seq![0xffu8] + T::spec_output(x),
            None => seq![0xfeu8],
        }
    }

    fn to_output(&self, output: &mut Vec<u8>) {
        match &self.0 {
            Some(x) => {
                output.push(0xff);
                let ghost mid = output@;
                x.to_output(output);
                proof {
                    assert(output@ =~= old(output)@ + (seq![0xffu8] + T::spec_output(x.deep_view())));
                }
            },
            None => {
                output.push(0xfe);
                proof {
                    assert(output@ =~= old(output)@ + seq![0xfeu8]);
                }
            },
        }
    }
}

impl<T: ByteOrd> ByteOrd for LnOption<T> {
    fn bytes_cmp(&self, other: &Self) -> (r: Ordering) {
        proof {
            reveal_with_fuel(lex_order, 2);
        }
        match (&self.0, &other.0) {
            (None, None) => Ordering::Equal,
            (None, Some(_)) => Ordering::Less,
            (Some(_), None) => Ordering::Greater,
            (Some(a), Some(b)) => {
                proof {
                    crate::ordering::lemma_lex_order_prefix(
                        seq![0xffu8],
                        T::spec_output(a.deep_view()),
                        T::spec_output(b.deep_view()),
                    );
                }
                a.bytes_cmp(b)
            },
        }
    }
}

} // verus!
