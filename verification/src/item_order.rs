use std::cmp::Ordering;
use vstd::prelude::*;
use crate::ordering::{ByteOrd, lex_order, lemma_lex_order_equal, lemma_lex_order_prefix, lemma_lex_order_extend,
    lemma_lex_order_flip};
use crate::traits::{ToOutput, ParseInline, Niched};
use crate::option::MinNiche;
use crate::none_terminated::Nt;
use std::collections::VecDeque;
use crate::sequence::{concat_outputs, all_valid, all_valid_nonempty, Sequence};
use crate::length_prefixed::LpVec;
use crate::u63::{u63_output, u63_bound, lemma_u63_order, lemma_u63_num};
use crate::amt::{is_prefix, lemma_encodings_apart, lemma_prefix_drop_first, lemma_empty_prefix, lemma_prefix_same_len,
    lemma_not_prefix_take};

verus! {

/// Item-by-item order of two sequences: the first pair of items whose encodings
/// differ decides, by the byte order of those encodings; of a sequence and its proper
/// prefix, the prefix is smaller.
pub open spec fn items_order<T: ToOutput>(a: Seq<T::V>, b: Seq<T::V>) -> Ordering
    decreases a.len(),
{
    if a.len() == 0 {
        if b.len() == 0 {
            Ordering::Equal
        } else {
            Ordering::Less
        }
    } else if b.len() == 0 {
        Ordering::Greater
    } else if lex_order(T::spec_output(a[0]), T::spec_output(b[0])) == Ordering::Equal {
        items_order::<T>(a.drop_first(), b.drop_first())
    } else {
        lex_order(T::spec_output(a[0]), T::spec_output(b[0]))
    }
}

/// Of two byte strings that are no prefix of each other, what follows them does not
/// change their order.
pub proof fn lemma_lex_apart(a: Seq<u8>, b: Seq<u8>, x: Seq<u8>, y: Seq<u8>)
    requires
        !is_prefix(a, b),
        !is_prefix(b, a),
    ensures
        lex_order(a + x, b + y) == lex_order(a, b),
    decreases a.len(),
{
    if a.len() == 0 {
        lemma_empty_prefix(a, b);
    } else if b.len() == 0 {
        lemma_empty_prefix(b, a);
    } else {
        assert((a + x)[0] == a[0]);
        assert((b + y)[0] == b[0]);
        if a[0] == b[0] {
            assert((a + x).drop_first() =~= a.drop_first() + x);
            assert((b + y).drop_first() =~= b.drop_first() + y);
            lemma_prefix_drop_first(a, b);
            lemma_prefix_drop_first(b, a);
            lemma_lex_apart(a.drop_first(), b.drop_first(), x, y);
        }
    }
}

/// The encoding of a sequence is the first item's encoding, then the rest's.
proof fn lemma_concat_first<T: ToOutput>(s: Seq<T::V>)
    requires
        s.len() > 0,
    ensures
        concat_outputs::<T>(s) == T::spec_output(s[0]) + concat_outputs::<T>(s.drop_first()),
{
}

/// For items that decode from the front of an input, the item-by-item order is the
/// byte order of the whole encodings, when no item has an empty encoding or the two
/// sequences are equally long.
pub proof fn lemma_items_order_bytes<T: ParseInline>(a: Seq<T::V>, b: Seq<T::V>)
    requires
        all_valid::<T>(a),
        all_valid::<T>(b),
        (all_valid_nonempty::<T>(a) && all_valid_nonempty::<T>(b)) || a.len() == b.len(),
    ensures
        items_order::<T>(a, b) == lex_order(concat_outputs::<T>(a), concat_outputs::<T>(b)),
    decreases a.len(),
{
    if a.len() == 0 {
        if b.len() == 0 {
            lemma_lex_order_equal(concat_outputs::<T>(a), concat_outputs::<T>(b));
        } else {
            lemma_concat_first::<T>(b);
            assert(T::spec_output(b[0]).len() > 0);
        }
    } else if b.len() == 0 {
        lemma_concat_first::<T>(a);
        assert(T::spec_output(a[0]).len() > 0);
    } else {
        lemma_concat_first::<T>(a);
        lemma_concat_first::<T>(b);
        let oa = T::spec_output(a[0]);
        let ob = T::spec_output(b[0]);
        let ra = a.drop_first();
        let rb = b.drop_first();
        assert(T::spec_valid(a[0]));
        assert(T::spec_valid(b[0]));
        assert(all_valid::<T>(ra)) by {
            assert forall|i: int| 0 <= i < ra.len() implies T::spec_valid(#[trigger] ra[i]) by {
                assert(ra[i] == a[i + 1]);
            }
        }
        assert(all_valid::<T>(rb)) by {
            assert forall|i: int| 0 <= i < rb.len() implies T::spec_valid(#[trigger] rb[i]) by {
                assert(rb[i] == b[i + 1]);
            }
        }
        if all_valid_nonempty::<T>(a) && all_valid_nonempty::<T>(b) {
            assert(all_valid_nonempty::<T>(ra)) by {
                assert forall|i: int| 0 <= i < ra.len() implies T::spec_valid(#[trigger] ra[i]) && T::spec_output(ra[i]).len() > 0 by {
                    assert(ra[i] == a[i + 1]);
                }
            }
            assert(all_valid_nonempty::<T>(rb)) by {
                assert forall|i: int| 0 <= i < rb.len() implies T::spec_valid(#[trigger] rb[i]) && T::spec_output(rb[i]).len() > 0 by {
                    assert(rb[i] == b[i + 1]);
                }
            }
        }
        lemma_lex_order_equal(oa, ob);
        if oa == ob {
            lemma_items_order_bytes::<T>(ra, rb);
            lemma_lex_order_prefix(oa, concat_outputs::<T>(ra), concat_outputs::<T>(rb));
        } else {
            if is_prefix(oa, ob) {
                lemma_encodings_apart::<T>(a[0], b[0]);
            }
            if is_prefix(ob, oa) {
                lemma_encodings_apart::<T>(b[0], a[0]);
            }
            lemma_lex_apart(oa, ob, concat_outputs::<T>(ra), concat_outputs::<T>(rb));
        }
    }
}

/// Compare two vectors item by item, each pair by the byte order of the encodings.
pub fn iter_bytes_cmp<T: ByteOrd>(a: &Vec<T>, b: &Vec<T>) -> (r: Ordering)
    requires
        all_valid::<T>(a.deep_view()),
        all_valid::<T>(b.deep_view()),
    ensures
        r == items_order::<T>(a.deep_view(), b.deep_view()),
{
    let ghost sa = a.deep_view();
    let ghost sb = b.deep_view();
    let ghost mut g: int = 0;
    let mut i: usize = 0;
    proof {
        assert(sa.skip(0) =~= sa);
        assert(sb.skip(0) =~= sb);
    }
    while i < a.len() && i < b.len()
        invariant
            g == i,
            sa == a.deep_view(),
            sb == b.deep_view(),
            sa.len() == a@.len(),
            sb.len() == b@.len(),
            0 <= g <= sa.len(),
            g <= sb.len(),
            all_valid::<T>(sa),
            all_valid::<T>(sb),
            items_order::<T>(sa, sb) == items_order::<T>(sa.skip(g), sb.skip(g)),
        decreases sa.len() - g,
    {
        proof {
            assert(sa[g] == a@[g].deep_view());
            assert(sb[g] == b@[g].deep_view());
            assert(T::spec_valid(sa[g]));
            assert(T::spec_valid(sb[g]));
            assert(sa.skip(g)[0] == sa[g]);
            assert(sb.skip(g)[0] == sb[g]);
            assert(sa.skip(g).drop_first() =~= sa.skip(g + 1));
            assert(sb.skip(g).drop_first() =~= sb.skip(g + 1));
        }
        let c = a[i].bytes_cmp(&b[i]);
        match c {
            Ordering::Equal => {},
            Ordering::Less => {
                return c;
            },
            Ordering::Greater => {
                return c;
            },
        }
        i = i + 1;
        proof {
            g = g + 1;
        }
    }
    if i < a.len() {
        proof {
            assert(sb.skip(g).len() == 0);
        }
        Ordering::Greater
    } else if i < b.len() {
        proof {
            assert(sa.skip(g).len() == 0);
        }
        Ordering::Less
    } else {
        proof {
            assert(sa.skip(g).len() == 0);
            assert(sb.skip(g).len() == 0);
        }
        Ordering::Equal
    }
}

/// Valid vectors hold valid items.
proof fn lemma_nonempty_valid<T: ToOutput>(s: Seq<T::V>)
    requires
        all_valid_nonempty::<T>(s),
    ensures
        all_valid::<T>(s),
{
}

/// Vectors compare item by item, which is the byte order of their encodings.
impl<T: ByteOrd + ParseInline> ByteOrd for Vec<T> {
    fn bytes_cmp(&self, other: &Self) -> (r: Ordering) {
        proof {
            lemma_nonempty_valid::<T>(self.deep_view());
            lemma_nonempty_valid::<T>(other.deep_view());
            lemma_items_order_bytes::<T>(self.deep_view(), other.deep_view());
        }
        iter_bytes_cmp(self, other)
    }
}

/// Sequences compare item by item, which is the byte order of their encodings.
impl<T: ByteOrd + ParseInline> ByteOrd for Sequence<T> {
    fn bytes_cmp(&self, other: &Self) -> (r: Ordering) {
        proof {
            lemma_nonempty_valid::<T>(self.deep_view());
            lemma_nonempty_valid::<T>(other.deep_view());
            lemma_items_order_bytes::<T>(self.deep_view(), other.deep_view());
        }
        iter_bytes_cmp(&self.0, &other.0)
    }
}

/// Counted vectors compare by count first, then item by item: the byte order of their
/// encodings, count prefix included.
impl<T: ByteOrd + ParseInline> ByteOrd for LpVec<T> {
    fn bytes_cmp(&self, other: &Self) -> (r: Ordering) {
        let ghost a = self.deep_view();
        let ghost b = other.deep_view();
        let ghost ca = concat_outputs::<T>(a);
        let ghost cb = concat_outputs::<T>(b);
        let la = self.0.len();
        let lb = other.0.len();
        proof {
            assert(a.len() == la);
            assert(b.len() == lb);
            lemma_u63_num(a.len());
            lemma_u63_num(b.len());
        }
        if la < lb {
            proof {
                lemma_u63_order(a.len(), b.len());
                lemma_lex_order_equal(u63_output(a.len()), u63_output(b.len()));
                lemma_lex_order_extend(u63_output(a.len()), u63_output(b.len()), ca, cb);
            }
            Ordering::Less
        } else if lb < la {
            proof {
                lemma_u63_order(b.len(), a.len());
                lemma_lex_order_equal(u63_output(b.len()), u63_output(a.len()));
                lemma_lex_order_extend(u63_output(b.len()), u63_output(a.len()), cb, ca);
                lemma_lex_order_flip(u63_output(a.len()) + ca, u63_output(b.len()) + cb);
            }
            Ordering::Greater
        } else {
            proof {
                lemma_items_order_bytes::<T>(a, b);
                lemma_lex_order_prefix(u63_output(a.len()), ca, cb);
            }
            iter_bytes_cmp(&self.0, &other.0)
        }
    }
}

/// A niche and a value's encoding are no prefix of each other.
proof fn lemma_niche_apart<A: Niched>(v: A::V, i: nat)
    requires
        A::spec_valid(v),
        i < A::niche_count(),
    ensures
        !is_prefix(A::spec_niche(i), A::spec_output(v)),
        !is_prefix(A::spec_output(v), A::spec_niche(i)),
{
    A::lemma_niche_not_value(v, i);
    A::lemma_niche_len(i);
    lemma_not_prefix_take(A::spec_niche(i), A::spec_output(v));
    if is_prefix(A::spec_output(v), A::spec_niche(i)) {
        lemma_prefix_same_len(A::spec_output(v), A::spec_niche(i));
    }
}

/// For items whose niches sort below every value, the item-by-item order is the byte
/// order of the encodings with the ending niche after the items.
pub proof fn lemma_nt_items_order<A: MinNiche>(a: Seq<A::V>, b: Seq<A::V>)
    requires
        all_valid_nonempty::<A>(a),
        all_valid_nonempty::<A>(b),
        A::niche_count() >= 1,
    ensures
        items_order::<A>(a, b) == lex_order(
            concat_outputs::<A>(a) + A::spec_niche(0),
            concat_outputs::<A>(b) + A::spec_niche(0),
        ),
    decreases a.len(),
{
    let end = A::spec_niche(0);
    if a.len() == 0 {
        assert(concat_outputs::<A>(a) + end =~= end);
        if b.len() == 0 {
            assert(concat_outputs::<A>(b) + end =~= end);
            lemma_lex_order_equal(end, end);
        } else {
            lemma_concat_first::<A>(b);
            assert(A::spec_valid(b[0]));
            let rest = concat_outputs::<A>(b.drop_first()) + end;
            assert(concat_outputs::<A>(b) + end =~= A::spec_output(b[0]) + rest);
            assert(end + Seq::<u8>::empty() =~= end);
            lemma_niche_apart::<A>(b[0], 0);
            lemma_lex_apart(end, A::spec_output(b[0]), Seq::<u8>::empty(), rest);
            A::lemma_niche_below_value(b[0], 0);
        }
    } else if b.len() == 0 {
        assert(concat_outputs::<A>(b) + end =~= end);
        lemma_concat_first::<A>(a);
        assert(A::spec_valid(a[0]));
        let rest = concat_outputs::<A>(a.drop_first()) + end;
        assert(concat_outputs::<A>(a) + end =~= A::spec_output(a[0]) + rest);
        assert(end + Seq::<u8>::empty() =~= end);
        lemma_niche_apart::<A>(a[0], 0);
        lemma_lex_apart(end, A::spec_output(a[0]), Seq::<u8>::empty(), rest);
        A::lemma_niche_below_value(a[0], 0);
        lemma_lex_order_flip(end, A::spec_output(a[0]) + rest);
    } else {
        lemma_concat_first::<A>(a);
        lemma_concat_first::<A>(b);
        let oa = A::spec_output(a[0]);
        let ob = A::spec_output(b[0]);
        let ra = a.drop_first();
        let rb = b.drop_first();
        assert(A::spec_valid(a[0]));
        assert(A::spec_valid(b[0]));
        assert(all_valid_nonempty::<A>(ra)) by {
            assert forall|i: int| 0 <= i < ra.len() implies A::spec_valid(#[trigger] ra[i]) && A::spec_output(ra[i]).len() > 0 by {
                assert(ra[i] == a[i + 1]);
            }
        }
        assert(all_valid_nonempty::<A>(rb)) by {
            assert forall|i: int| 0 <= i < rb.len() implies A::spec_valid(#[trigger] rb[i]) && A::spec_output(rb[i]).len() > 0 by {
                assert(rb[i] == b[i + 1]);
            }
        }
        let ta = concat_outputs::<A>(ra) + end;
        let tb = concat_outputs::<A>(rb) + end;
        assert(concat_outputs::<A>(a) + end =~= oa + ta);
        assert(concat_outputs::<A>(b) + end =~= ob + tb);
        lemma_lex_order_equal(oa, ob);
        if oa == ob {
            lemma_nt_items_order::<A>(ra, rb);
            lemma_lex_order_prefix(oa, ta, tb);
        } else {
            if is_prefix(oa, ob) {
                lemma_encodings_apart::<A>(a[0], b[0]);
            }
            if is_prefix(ob, oa) {
                lemma_encodings_apart::<A>(b[0], a[0]);
            }
            lemma_lex_apart(oa, ob, ta, tb);
        }
    }
}

/// Item lists ended by a niche compare item by item, which is the byte order of their
/// encodings.
impl<A: MinNiche> crate::ordering::ByteOrd for Nt<A> {
    fn bytes_cmp(&self, other: &Self) -> (r: Ordering) {
        proof {
            lemma_nonempty_valid::<A>(self.deep_view());
            lemma_nonempty_valid::<A>(other.deep_view());
            lemma_nt_items_order::<A>(self.deep_view(), other.deep_view());
        }
        iter_bytes_cmp(&self.0, &other.0)
    }
}

/// Compare two double-ended queues front to back, item by item, each pair by the byte
/// order of the encodings.
pub fn deque_bytes_cmp<T: ByteOrd>(a: &VecDeque<T>, b: &VecDeque<T>) -> (r: Ordering)
    requires
        all_valid::<T>(a.deep_view()),
        all_valid::<T>(b.deep_view()),
    ensures
        r == items_order::<T>(a.deep_view(), b.deep_view()),
{
    let ghost sa = a.deep_view();
    let ghost sb = b.deep_view();
    let ghost mut g: int = 0;
    let mut i: usize = 0;
    proof {
        assert(sa.skip(0) =~= sa);
        assert(sb.skip(0) =~= sb);
    }
    while i < a.len() && i < b.len()
        invariant
            g == i,
            sa == a.deep_view(),
            sb == b.deep_view(),
            sa.len() == a@.len(),
            sb.len() == b@.len(),
            0 <= g <= sa.len(),
            g <= sb.len(),
            all_valid::<T>(sa),
            all_valid::<T>(sb),
            items_order::<T>(sa, sb) == items_order::<T>(sa.skip(g), sb.skip(g)),
        decreases sa.len() - g,
    {
        proof {
            assert(sa[g] == a@[g].deep_view());
            assert(sb[g] == b@[g].deep_view());
            assert(T::spec_valid(sa[g]));
            assert(T::spec_valid(sb[g]));
            assert(sa.skip(g)[0] == sa[g]);
            assert(sb.skip(g)[0] == sb[g]);
            assert(sa.skip(g).drop_first() =~= sa.skip(g + 1));
            assert(sb.skip(g).drop_first() =~= sb.skip(g + 1));
        }
        let c = a[i].bytes_cmp(&b[i]);
        match c {
            Ordering::Equal => {},
            Ordering::Less => {
                return c;
            },
            Ordering::Greater => {
                return c;
            },
        }
        i = i + 1;
        proof {
            g = g + 1;
        }
    }
    if i < a.len() {
        proof {
            assert(sb.skip(g).len() == 0);
        }
        Ordering::Greater
    } else if i < b.len() {
        proof {
            assert(sa.skip(g).len() == 0);
        }
        Ordering::Less
    } else {
        proof {
            assert(sa.skip(g).len() == 0);
            assert(sb.skip(g).len() == 0);
        }
        Ordering::Equal
    }
}

/// Double-ended queues compare item by item, front to back, which is the byte order of
/// their encodings.
impl<T: ByteOrd + ParseInline> ByteOrd for VecDeque<T> {
    fn bytes_cmp(&self, other: &Self) -> (r: Ordering) {
        proof {
            lemma_nonempty_valid::<T>(self.deep_view());
            lemma_nonempty_valid::<T>(other.deep_view());
            lemma_items_order_bytes::<T>(self.deep_view(), other.deep_view());
        }
        deque_bytes_cmp(self, other)
    }
}

} // verus!
