use vstd::prelude::*;
use crate::array_map::ArrayMap;
use crate::amt::{
    Node, lookup, node_wf, height_le, path_ok, join, lemma_join, lemma_split, lemma_lookup_join,
    lemma_sub_wf, lemma_make_sub_wf, lemma_height_child, lemma_height_make, lemma_height_flat,
    lemma_height_mono, lemma_nonempty, keys_apart, lemma_keys_apart_below, slot, is_prefix,
    prefix_free_with, lookup_put_or_keep, after_drop, lemma_shift, lemma_shift_wf,
    lemma_shift_height, common_length, lemma_lookup_join_old, lemma_sub_keys,
};

verus! {

/// `r` holds the keys of `a`, each with a value that `f` may give for the value of `a`.
pub open spec fn mapped_by<V, U, F: Fn(V) -> U>(a: Node<V>, r: Node<U>, f: F) -> bool {
    &&& forall|k: Seq<u8>| #[trigger] lookup(r, k) is Some == lookup(a, k) is Some
    &&& forall|k: Seq<u8>| lookup(a, k) is Some ==> f.ensures((lookup(a, k)->Some_0,), #[trigger] lookup(r, k)->Some_0)
}

/// `r` holds, at each key of `a`, what `f` may give for the value there (nothing where
/// it gives `None`), and nothing elsewhere.
pub open spec fn filtered_by<V, U, F: Fn(V) -> Option<U>>(a: Node<V>, r: Node<U>, f: F) -> bool {
    &&& forall|k: Seq<u8>| lookup(a, k) is None ==> #[trigger] lookup(r, k) is None
    &&& forall|k: Seq<u8>| lookup(a, k) is Some ==> f.ensures((lookup(a, k)->Some_0,), #[trigger] lookup(r, k))
}

/// The child under byte `b`, or the empty node where there is none.
pub open spec fn child_or_empty<U>(m: Map<u8, Node<U>>, b: u8) -> Node<U> {
    if m.contains_key(b) {
        m[b]
    } else {
        Node::Empty
    }
}

/// The children of a well-formed branch at most `h` deep: none empty, each
/// well-formed and at most `h - 1` deep.
pub proof fn children_facts<V>(p: Vec<u8>, ch: ArrayMap<Node<V>>, h: nat)
    requires
        node_wf(Node::Sub(p, ch)),
        height_le(Node::Sub(p, ch), h),
    ensures
        h > 0,
        forall|c: u8| #[trigger] ch@.contains_key(c) ==> !(ch@[c] is Empty) && node_wf(ch@[c])
            && height_le(ch@[c], (h - 1) as nat),
{
    lemma_sub_wf(p, ch);
    assert(crate::amt::bounded(Node::Sub(p, ch), Seq::empty(), h));
    assert forall|c: u8| #[trigger] ch@.contains_key(c) implies !(ch@[c] is Empty) && node_wf(ch@[c])
        && height_le(ch@[c], (h - 1) as nat) by {
        lemma_height_child(p, ch, h, c);
    }
}

/// The empty node is well-formed and flat.
pub proof fn lemma_empty_ok<V>()
    ensures
        node_wf(Node::<V>::Empty),
        forall|h: nat| #[trigger] height_le(Node::<V>::Empty, h),
{
    assert forall|k: Seq<u8>| #[trigger] path_ok(Node::<V>::Empty, k) by {}
    assert forall|h: nat| #[trigger] height_le(Node::<V>::Empty, h) by {
        lemma_height_flat(Node::<V>::Empty);
        lemma_height_mono(Node::<V>::Empty, 0, h);
    }
}

/// A leaf is well-formed and flat.
pub proof fn lemma_leaf_ok<V>(k: Vec<u8>, v: V)
    ensures
        node_wf(Node::Leaf(k, v)),
        forall|h: nat| #[trigger] height_le(Node::Leaf(k, v), h),
{
    assert forall|x: Seq<u8>| #[trigger] path_ok(Node::Leaf(k, v), x) by {}
    assert forall|h: nat| #[trigger] height_le(Node::Leaf(k, v), h) by {
        lemma_height_flat(Node::Leaf(k, v));
        lemma_height_mono(Node::Leaf(k, v), 0, h);
    }
}

impl<V> Node<V> {
    /// The same trie with every value passed through `f`. The depth `h` bounds the trie
    /// and only serves the proof.
    pub fn map<U, F: Fn(V) -> U>(self, f: &F, Ghost(h): Ghost<nat>) -> (r: Node<U>)
        requires
            node_wf(self),
            height_le(self, h),
            forall|v: V| #[trigger] f.requires((v,)),
        ensures
            node_wf(r),
            height_le(r, h),
            mapped_by(self, r, *f),
        decreases h,
    {
        match self {
            Node::Empty => {
                proof {
                    lemma_empty_ok::<U>();
                }
                Node::Empty
            },
            Node::Leaf(k, v) => {
                let u = f(v);
                proof {
                    lemma_leaf_ok(k, u);
                }
                Node::Leaf(k, u)
            },
            Node::Sub(p, ch) => {
                let ghost a_node = self;
                let ghost ch0 = ch@;
                let ghost chm0 = ch;
                proof {
                    lemma_sub_wf(p, ch);
                    assert forall|b: u8| #[trigger] ch0.contains_key(b) implies height_le(ch0[b], (h - 1) as nat) && h > 0 by {
                        lemma_height_child(p, chm0, h, b);
                    }
                    let b0 = ch0.dom().choose();
                    assert(ch0.contains_key(b0));
                }
                let mut ch = ch;
                let mut out: ArrayMap<Node<U>> = ArrayMap::new();
                loop
                    invariant
                        h > 0,
                        forall|v: V| #[trigger] f.requires((v,)),
                        forall|b: u8| #[trigger] ch0.contains_key(b) ==> !(ch0[b] is Empty) && node_wf(ch0[b])
                            && height_le(ch0[b], (h - 1) as nat),
                        forall|b: u8| #[trigger] ch@.contains_key(b) ==> ch0.contains_key(b) && ch@[b] == ch0[b]
                            && !out@.contains_key(b),
                        forall|b: u8| #[trigger] ch0.contains_key(b) ==> ch@.contains_key(b) || out@.contains_key(b),
                        forall|b: u8| #[trigger] out@.contains_key(b) ==> ch0.contains_key(b) && !(out@[b] is Empty)
                            && node_wf(out@[b]) && height_le(out@[b], (h - 1) as nat) && mapped_by(ch0[b], out@[b], *f),
                    ensures
                        ch@.len() == 0,
                    decreases ch@.len(),
                {
                    proof {
                        use_type_invariant(&ch);
                        ch.lemma_key_seq();
                    }
                    let ghost before = ch@;
                    match ch.pop_first() {
                        Some((b, c)) => {
                            proof {
                                assert(before.contains_key(b));
                            }
                            let m = c.map(f, Ghost((h - 1) as nat));
                            proof {
                                let key = lemma_nonempty(c);
                                assert(lookup(m, key) is Some);
                            }
                            out.insert(b, m);
                            proof {
                                assert forall|x: u8| #[trigger] ch@.contains_key(x) implies ch0.contains_key(x) && ch@[x] == ch0[x]
                                    && !out@.contains_key(x) by {
                                    assert(before.contains_key(x));
                                }
                                assert forall|x: u8| #[trigger] ch0.contains_key(x) implies ch@.contains_key(x) || out@.contains_key(x) by {
                                    if x != b && !out@.contains_key(x) {
                                        assert(before.contains_key(x));
                                    }
                                }
                            }
                        },
                        None => {
                            break;
                        },
                    }
                }
                proof {
                    use_type_invariant(&ch);
                    ch.lemma_key_seq();
                    use_type_invariant(&out);
                    out.lemma_key_seq();
                    chm0.lemma_key_seq();
                    assert forall|b: u8| !#[trigger] ch@.contains_key(b) by {
                        if ch@.contains_key(b) {
                            assert(ch.key_seq().contains(b));
                        }
                    }
                    assert(out@.dom() =~= ch0.dom());
                    lemma_make_sub_wf(p, out);
                    lemma_height_make(p, out, h);
                }
                let ghost outg = out;
                let r = Node::Sub(p, out);
                proof {
                    assert forall|k: Seq<u8>| #[trigger] lookup(r, k) is Some == lookup(a_node, k) is Some by {
                        if p@.len() < k.len() && k.take(p@.len() as int) == p@ {
                            lemma_split(p@, k);
                            let x = k[p@.len() as int];
                            let rk = k.skip(p@.len() + 1int);
                            lemma_lookup_join(p, outg, x, rk);
                            lemma_lookup_join(p, chm0, x, rk);
                        }
                    }
                    assert forall|k: Seq<u8>| lookup(a_node, k) is Some implies f.ensures((lookup(a_node, k)->Some_0,), #[trigger] lookup(r, k)->Some_0) by {
                        lemma_split(p@, k);
                        let x = k[p@.len() as int];
                        let rk = k.skip(p@.len() + 1int);
                        lemma_lookup_join(p, outg, x, rk);
                        lemma_lookup_join(p, chm0, x, rk);
                        assert(lookup(ch0[x], rk) is Some);
                    }
                }
                r
            },
        }
    }
}

impl<V> Node<V> {
    /// The trie of what `f` gives for each value, dropping the values for which it gives
    /// `None`; branches left with one child are merged into it. The depth `h` bounds the
    /// trie and only serves the proof.
    pub fn filter_map<U, F: Fn(V) -> Option<U>>(self, f: &F, Ghost(h): Ghost<nat>) -> (r: Node<U>)
        requires
            node_wf(self),
            height_le(self, h),
            forall|v: V| #[trigger] f.requires((v,)),
        ensures
            node_wf(r),
            height_le(r, h),
            filtered_by(self, r, *f),
        decreases h,
    {
        match self {
            Node::Empty => {
                proof {
                    lemma_empty_ok::<U>();
                }
                Node::Empty
            },
            Node::Leaf(k, v) => {
                let ghost kv = k@;
                match f(v) {
                    Some(u) => {
                        proof {
                            lemma_leaf_ok(k, u);
                        }
                        Node::Leaf(k, u)
                    },
                    None => {
                        proof {
                            lemma_empty_ok::<U>();
                        }
                        Node::Empty
                    },
                }
            },
            Node::Sub(p, ch) => {
                let ghost a_node = self;
                let ghost ch0 = ch@;
                let ghost chm0 = ch;
                proof {
                    lemma_sub_wf(p, ch);
                    assert forall|b: u8| #[trigger] ch0.contains_key(b) implies height_le(ch0[b], (h - 1) as nat) && h > 0 by {
                        lemma_height_child(p, chm0, h, b);
                    }
                    let b0 = ch0.dom().choose();
                    assert(ch0.contains_key(b0));
                }
                let mut ch = ch;
                let mut out: ArrayMap<Node<U>> = ArrayMap::new();
                loop
                    invariant
                        h > 0,
                        forall|v: V| #[trigger] f.requires((v,)),
                        forall|b: u8| #[trigger] ch0.contains_key(b) ==> !(ch0[b] is Empty) && node_wf(ch0[b])
                            && height_le(ch0[b], (h - 1) as nat),
                        forall|b: u8| #[trigger] ch@.contains_key(b) ==> ch0.contains_key(b) && ch@[b] == ch0[b]
                            && !out@.contains_key(b),
                        forall|b: u8| #[trigger] out@.contains_key(b) ==> ch0.contains_key(b) && !(out@[b] is Empty)
                            && node_wf(out@[b]) && height_le(out@[b], (h - 1) as nat),
                        forall|b: u8| #[trigger] ch0.contains_key(b) && !ch@.contains_key(b) ==> filtered_by(
                            ch0[b],
                            child_or_empty(out@, b),
                            *f,
                        ),
                    ensures
                        ch@.len() == 0,
                    decreases ch@.len(),
                {
                    proof {
                        use_type_invariant(&ch);
                        ch.lemma_key_seq();
                    }
                    let ghost before = ch@;
                    let ghost out_before = out@;
                    match ch.pop_first() {
                        Some((b, c)) => {
                            proof {
                                assert(before.contains_key(b));
                            }
                            let m = c.filter_map(f, Ghost((h - 1) as nat));
                            if !m.is_empty() {
                                out.insert(b, m);
                            }
                            proof {
                                assert(child_or_empty(out@, b) == m);
                                assert forall|x: u8| #[trigger] ch@.contains_key(x) implies ch0.contains_key(x) && ch@[x] == ch0[x]
                                    && !out@.contains_key(x) by {
                                    assert(before.contains_key(x));
                                }
                                assert forall|x: u8| #[trigger] ch0.contains_key(x) && !ch@.contains_key(x) implies filtered_by(
                                    ch0[x],
                                    child_or_empty(out@, x),
                                    *f,
                                ) by {
                                    if x != b {
                                        assert(!before.contains_key(x));
                                        assert(child_or_empty(out@, x) == child_or_empty(out_before, x));
                                    }
                                }
                            }
                        },
                        None => {
                            break;
                        },
                    }
                }
                proof {
                    use_type_invariant(&ch);
                    ch.lemma_key_seq();
                    assert forall|b: u8| !#[trigger] ch@.contains_key(b) by {
                        if ch@.contains_key(b) {
                            assert(ch.key_seq().contains(b));
                        }
                    }
                    use_type_invariant(&out);
                    lemma_height_make(p, out, h);
                }
                let ghost pv = p;
                let ghost outg = out;
                let r = Node::collapse(p, out);
                proof {
                    assert forall|k: Seq<u8>| lookup(a_node, k) is None implies #[trigger] lookup(r, k) is None by {
                        assert(lookup(r, k) == lookup(Node::Sub(pv, outg), k));
                        if pv@.len() < k.len() && k.take(pv@.len() as int) == pv@ {
                            lemma_split(pv@, k);
                            let x = k[pv@.len() as int];
                            let rk = k.skip(pv@.len() + 1int);
                            lemma_lookup_join(pv, outg, x, rk);
                            lemma_lookup_join(pv, chm0, x, rk);
                            if ch0.contains_key(x) {
                                assert(filtered_by(ch0[x], child_or_empty(outg@, x), *f));
                            }
                        }
                    }
                    assert forall|k: Seq<u8>| lookup(a_node, k) is Some implies f.ensures((lookup(a_node, k)->Some_0,), #[trigger] lookup(r, k)) by {
                        assert(lookup(r, k) == lookup(Node::Sub(pv, outg), k));
                        lemma_split(pv@, k);
                        let x = k[pv@.len() as int];
                        let rk = k.skip(pv@.len() + 1int);
                        lemma_lookup_join(pv, outg, x, rk);
                        lemma_lookup_join(pv, chm0, x, rk);
                        assert(filtered_by(ch0[x], child_or_empty(outg@, x), *f));
                        assert(lookup(ch0[x], rk) is Some);
                        assert(lookup(child_or_empty(outg@, x), rk) == lookup(r, k));
                    }
                }
                r
            },
        }
    }
}

/// What a change set leaves at a key: the value it sets there, nothing where it clears
/// the key, and the old value where it says nothing.
pub open spec fn applied<V>(a: Option<V>, b: Option<Option<V>>) -> Option<V> {
    match b {
        Some(Some(v)) => Some(v),
        Some(None) => None,
        None => a,
    }
}

/// What a change set takes out at a key: the old value, where the set touches a key
/// that had one.
pub open spec fn taken<V>(a: Option<V>, b: Option<Option<V>>) -> Option<Option<V>> {
    if b is Some && a is Some {
        Some(a)
    } else {
        None
    }
}

/// The identity on optional values, as a closure for `filter_map`.
pub fn unwrap_some<V>(x: Option<V>) -> (r: Option<V>)
    ensures
        r == x,
{
    x
}

/// The trie of the values that a change set sets, dropping the keys it clears.
pub fn settled<V>(b: Node<Option<V>>, Ghost(h): Ghost<nat>) -> (r: Node<V>)
    requires
        node_wf(b),
        height_le(b, h),
    ensures
        node_wf(r),
        height_le(r, h),
        forall|k: Seq<u8>| #[trigger] lookup(r, k) == applied(None, lookup(b, k)),
{
    let f = |x: Option<V>| -> (y: Option<V>)
        ensures
            y == x,
        { unwrap_some(x) };
    let r = b.filter_map(&f, Ghost(h));
    proof {
        assert forall|k: Seq<u8>| #[trigger] lookup(r, k) == applied(None, lookup(b, k)) by {
            if lookup(b, k) is Some {
                assert(f.ensures((lookup(b, k)->Some_0,), lookup(r, k)));
            }
        }
    }
    r
}

impl<V> Node<V> {
    /// Apply the change set `other` to `self`: set the values it sets, drop the keys it
    /// clears. What comes back second is what the set took out: the old value at each
    /// key it touched that had one. The depths `ha` and `hb` bound the two tries and
    /// only serve the proof.
    pub fn op(self, other: Node<Option<V>>, Ghost(ha): Ghost<nat>, Ghost(hb): Ghost<nat>) -> (r: (Node<V>, Node<Option<V>>))
        requires
            node_wf(self),
            node_wf(other),
            height_le(self, ha),
            height_le(other, hb),
            keys_apart(self, other),
        ensures
            node_wf(r.0),
            node_wf(r.1),
            height_le(r.0, ha + hb + 1),
            height_le(r.1, ha + hb + 1),
            forall|k: Seq<u8>| #[trigger] lookup(r.0, k) == applied(lookup(self, k), lookup(other, k)),
            forall|k: Seq<u8>| #[trigger] lookup(r.1, k) == taken(lookup(self, k), lookup(other, k)),
        decreases ha + hb, 2nat,
    {
        proof {
            lemma_empty_ok::<Option<V>>();
            lemma_empty_ok::<V>();
        }
        match other {
            Node::Empty => {
                proof {
                    lemma_height_mono(self, ha, ha + hb + 1);
                }
                (self, Node::Empty)
            },
            Node::Leaf(kb, u) => {
                let ghost kbv = kb@;
                let ghost uu = u;
                proof {
                    assert(lookup(other, kbv) is Some);
                    assert forall|k: Seq<u8>| #[trigger] lookup(self, k) is Some && k != kbv implies !is_prefix(k, kbv) && !is_prefix(kbv, k) by {}
                }
                let (r, old) = match u {
                    Some(v) => {
                        let (r, old) = self.insert(kb.as_slice(), v, true);
                        proof {
                            assert forall|k: Seq<u8>| #[trigger] lookup(r, k) == applied(lookup(self, k), lookup(other, k)) by {
                                assert(lookup(r, k) == lookup_put_or_keep(self, k, kbv, v, true));
                            }
                            lemma_height_mono(r, ha + 1, ha + hb + 1);
                        }
                        (r, old)
                    },
                    None => {
                        let (r, old) = self.remove(kb.as_slice());
                        proof {
                            assert forall|k: Seq<u8>| #[trigger] lookup(r, k) == applied(lookup(self, k), lookup(other, k)) by {
                                assert(lookup(r, k) == after_drop(lookup(self, k), k, kbv));
                            }
                            lemma_height_mono(r, ha, ha + hb + 1);
                        }
                        (r, old)
                    },
                };
                let taken_node = match old {
                    Some(x) => {
                        proof {
                            lemma_leaf_ok(kb, Some(x));
                        }
                        Node::Leaf(kb, Some(x))
                    },
                    None => Node::Empty,
                };
                proof {
                    assert(old == lookup(self, kbv));
                    assert forall|k: Seq<u8>| #[trigger] lookup(taken_node, k) == taken(lookup(self, k), lookup(other, k)) by {}
                }
                (r, taken_node)
            },
            Node::Sub(pb, chb) => {
                let b_node = Node::Sub(pb, chb);
                match self {
                    Node::Empty => {
                        let r = settled(b_node, Ghost(hb));
                        proof {
                            lemma_height_mono(r, hb, ha + hb + 1);
                            assert forall|k: Seq<u8>| #[trigger] lookup(r, k) == applied(lookup(self, k), lookup(other, k)) by {}
                            assert forall|k: Seq<u8>| #[trigger] lookup(Node::<Option<V>>::Empty, k) == taken(lookup(self, k), lookup(other, k)) by {}
                        }
                        (r, Node::Empty)
                    },
                    Node::Leaf(ka, va) => {
                        let ghost kav = ka@;
                        let ghost vag = va;
                        proof {
                            assert(lookup(self, kav) is Some);
                            assert forall|k: Seq<u8>| #[trigger] lookup(b_node, k) is Some && k != kav implies !is_prefix(k, kav) && !is_prefix(kav, k) by {}
                        }
                        let (t2, kv) = b_node.insert(ka.as_slice(), Some(va), false);
                        let r = settled(t2, Ghost(hb + 1));
                        let taken_node = match kv {
                            Some(x) => {
                                proof {
                                    lemma_leaf_ok(ka, x);
                                }
                                Node::Leaf(ka, x)
                            },
                            None => Node::Empty,
                        };
                        proof {
                            lemma_height_mono(r, hb + 1, ha + hb + 1);
                            assert forall|k: Seq<u8>| #[trigger] lookup(r, k) == applied(lookup(self, k), lookup(other, k)) by {
                                assert(lookup(t2, k) == lookup_put_or_keep(b_node, k, kav, Some(vag), false));
                            }
                            assert forall|k: Seq<u8>| #[trigger] lookup(taken_node, k) == taken(lookup(self, k), lookup(other, k)) by {}
                        }
                        (r, taken_node)
                    },
                    Node::Sub(pa, cha) => {
                        Node::op_subs(pa, cha, b_node, Ghost(ha), Ghost(hb))
                    },
                }
            },
        }
    }
}

impl<V> Node<V> {
    /// Apply a change set that is a branch to a trie that is a branch.
    fn op_subs(pa: Vec<u8>, cha: ArrayMap<Node<V>>, b_node: Node<Option<V>>, Ghost(ha): Ghost<nat>, Ghost(hb): Ghost<nat>) -> (r: (Node<V>, Node<Option<V>>))
        requires
            b_node is Sub,
            node_wf(Node::Sub(pa, cha)),
            node_wf(b_node),
            height_le(Node::Sub(pa, cha), ha),
            height_le(b_node, hb),
            keys_apart(Node::Sub(pa, cha), b_node),
        ensures
            node_wf(r.0),
            node_wf(r.1),
            height_le(r.0, ha + hb + 1),
            height_le(r.1, ha + hb + 1),
            forall|k: Seq<u8>| #[trigger] lookup(r.0, k) == applied(lookup(Node::Sub(pa, cha), k), lookup(b_node, k)),
            forall|k: Seq<u8>| #[trigger] lookup(r.1, k) == taken(lookup(Node::Sub(pa, cha), k), lookup(b_node, k)),
        decreases ha + hb, 1nat,
    {
        let ghost a_node = Node::Sub(pa, cha);
        let (pb, chb) = match b_node {
            Node::Sub(pb, chb) => (pb, chb),
            _ => {
                proof {
                    assert(false);
                }
                return (Node::Sub(pa, cha), Node::Empty);
            },
        };
        proof {
            lemma_sub_wf(pa, cha);
            lemma_sub_wf(pb, chb);
        }
        let ghost cham = cha;
        let ghost chbm = chb;
        let la = pa.len();
        let lb = pb.len();
        let a_in_b = la <= lb && crate::seqs::bytes_eq(pa.as_slice(), vstd::slice::slice_subrange(pb.as_slice(), 0, la));
        let b_in_a = lb <= la && crate::seqs::bytes_eq(pb.as_slice(), vstd::slice::slice_subrange(pa.as_slice(), 0, lb));
        proof {
            if la <= lb {
                assert(pb@.subrange(0, la as int) =~= pb@.take(la as int));
            }
            if lb <= la {
                assert(pa@.subrange(0, lb as int) =~= pa@.take(lb as int));
            }
            assert(a_in_b == is_prefix(pa@, pb@));
            assert(b_in_a == is_prefix(pb@, pa@));
        }
        if a_in_b && la == lb {
            proof {
                assert(pa@ =~= pb@);
                assert forall|k: Seq<u8>| #[trigger] lookup(Node::Sub(pa, chbm), k) == lookup(b_node, k) by {}
                children_facts(pa, cham, ha);
                children_facts(pb, chbm, hb);
                assert forall|x: Seq<u8>, y: Seq<u8>| #[trigger] lookup(a_node, x) is Some && #[trigger] lookup(Node::Sub(pa, chbm), y) is Some && x != y
                    implies !is_prefix(x, y) && !is_prefix(y, x) by {
                    assert(lookup(b_node, y) is Some);
                }
            }
            let r = Node::op_children(pa, cha, chb, Ghost((ha - 1) as nat), Ghost((hb - 1) as nat), Ghost(ha + hb));
            proof {
                assert forall|k: Seq<u8>| #[trigger] lookup(r.0, k) == applied(lookup(a_node, k), lookup(b_node, k)) by {
                    assert(lookup(Node::Sub(pa, chbm), k) == lookup(b_node, k));
                }
                assert forall|k: Seq<u8>| #[trigger] lookup(r.1, k) == taken(lookup(a_node, k), lookup(b_node, k)) by {
                    assert(lookup(Node::Sub(pa, chbm), k) == lookup(b_node, k));
                }
                lemma_height_mono(r.0, ha + hb, ha + hb + 1);
                lemma_height_mono(r.1, ha + hb, ha + hb + 1);
            }
            r
        } else if a_in_b {
            let first = pb[la];
            let pb2 = vstd::slice::slice_to_vec(vstd::slice::slice_subrange(pb.as_slice(), la + 1, lb));
            proof {
                lemma_split(pa@, pb@);
                assert(pb2@ =~= pb@.skip(la + 1int));
                lemma_shift_wf(pb, pb2, pa@, first, chb);
                lemma_shift_height(pb, pb2, pa@, first, chb, hb);
            }
            let ghost pbv = pb;
            let b2 = Node::Sub(pb2, chb);
            let mut single = ArrayMap::new();
            single.insert(first, b2);
            let ghost sg = single;
            proof {
                children_facts(pa, cham, ha);
                assert forall|k: Seq<u8>| #[trigger] lookup(Node::Sub(pa, sg), k) == lookup(b_node, k) by {
                    lemma_shift(pbv, pb2, pa@, first, chbm, k);
                    if pa@.len() < k.len() && k.take(pa@.len() as int) == pa@ {
                        lemma_split(pa@, k);
                        lemma_lookup_join(pa, sg, k[pa@.len() as int], k.skip(pa@.len() + 1int));
                    }
                }
                let key_b = lemma_nonempty(b2);
                assert forall|x: Seq<u8>, y: Seq<u8>| #[trigger] lookup(a_node, x) is Some && #[trigger] lookup(Node::Sub(pa, sg), y) is Some && x != y
                    implies !is_prefix(x, y) && !is_prefix(y, x) by {
                    assert(lookup(b_node, y) is Some);
                }
                assert(ha > 0);
            }
            let r = Node::op_children(pa, cha, single, Ghost((ha - 1) as nat), Ghost(hb), Ghost(ha + hb));
            proof {
                assert forall|k: Seq<u8>| #[trigger] lookup(r.0, k) == applied(lookup(a_node, k), lookup(b_node, k)) by {
                    assert(lookup(Node::Sub(pa, sg), k) == lookup(b_node, k));
                }
                assert forall|k: Seq<u8>| #[trigger] lookup(r.1, k) == taken(lookup(a_node, k), lookup(b_node, k)) by {
                    assert(lookup(Node::Sub(pa, sg), k) == lookup(b_node, k));
                }
            }
            r
        } else if b_in_a {
            proof {
                assert(lb < la) by {
                    if lb == la {
                        assert(pa@ =~= pb@);
                    }
                }
            }
            let first = pa[lb];
            let pa2 = vstd::slice::slice_to_vec(vstd::slice::slice_subrange(pa.as_slice(), lb + 1, la));
            proof {
                lemma_split(pb@, pa@);
                assert(pa2@ =~= pa@.skip(lb + 1int));
                lemma_shift_wf(pa, pa2, pb@, first, cha);
                lemma_shift_height(pa, pa2, pb@, first, cha, ha);
            }
            let ghost pav = pa;
            let a2 = Node::Sub(pa2, cha);
            let mut single = ArrayMap::new();
            single.insert(first, a2);
            let ghost sg = single;
            proof {
                children_facts(pb, chbm, hb);
                assert forall|k: Seq<u8>| #[trigger] lookup(Node::Sub(pb, sg), k) == lookup(a_node, k) by {
                    lemma_shift(pav, pa2, pb@, first, cham, k);
                    if pb@.len() < k.len() && k.take(pb@.len() as int) == pb@ {
                        lemma_split(pb@, k);
                        lemma_lookup_join(pb, sg, k[pb@.len() as int], k.skip(pb@.len() + 1int));
                    }
                }
                let key_a = lemma_nonempty(a2);
                assert forall|x: Seq<u8>, y: Seq<u8>| #[trigger] lookup(Node::Sub(pb, sg), x) is Some && #[trigger] lookup(Node::Sub(pb, chbm), y) is Some && x != y
                    implies !is_prefix(x, y) && !is_prefix(y, x) by {
                    assert(lookup(a_node, x) is Some);
                    assert(lookup(b_node, y) is Some);
                }
                assert(hb > 0);
            }
            let r = Node::op_children(pb, single, chb, Ghost(ha), Ghost((hb - 1) as nat), Ghost(ha + hb));
            proof {
                assert forall|k: Seq<u8>| #[trigger] lookup(r.0, k) == applied(lookup(a_node, k), lookup(b_node, k)) by {
                    assert(lookup(Node::Sub(pb, sg), k) == lookup(a_node, k));
                }
                assert forall|k: Seq<u8>| #[trigger] lookup(r.1, k) == taken(lookup(a_node, k), lookup(b_node, k)) by {
                    assert(lookup(Node::Sub(pb, sg), k) == lookup(a_node, k));
                }
            }
            r
        } else {
            let n = match common_length(pa.as_slice(), pb.as_slice()) {
                Ok(n) => n,
                Err(_) => {
                    proof {
                        assert(false);
                    }
                    return (Node::Sub(pa, cha), Node::Empty);
                },
            };
            let common = vstd::slice::slice_subrange(pa.as_slice(), 0, n);
            let ca = pa[n];
            let cb = pb[n];
            let pa2 = vstd::slice::slice_to_vec(vstd::slice::slice_subrange(pa.as_slice(), n + 1, la));
            let pb2 = vstd::slice::slice_to_vec(vstd::slice::slice_subrange(pb.as_slice(), n + 1, lb));
            proof {
                assert(common@ =~= pa@.take(n as int));
                assert(pb@.take(n as int) == common@);
                lemma_split(common@, pa@);
                lemma_split(common@, pb@);
                assert(pa2@ =~= pa@.skip(n + 1int));
                assert(pb2@ =~= pb@.skip(n + 1int));
                lemma_shift_wf(pa, pa2, common@, ca, cha);
                lemma_shift_wf(pb, pb2, common@, cb, chb);
                lemma_shift_height(pa, pa2, common@, ca, cha, ha);
                lemma_shift_height(pb, pb2, common@, cb, chb, hb);
            }
            let ghost pav = pa;
            let ghost pbv = pb;
            let na = Node::Sub(pa2, cha);
            let nb = Node::Sub(pb2, chb);
            let ghost nag = na;
            let ghost nbg = nb;
            let filtered = settled(nb, Ghost(hb));
            let ghost fg = filtered;
            let r0 = if filtered.is_empty() {
                match na {
                    Node::Sub(p2, c2) => {
                        let ghost p2g = p2;
                        proof {
                            lemma_height_mono(a_node, ha, ha + hb + 1);
                        }
                        Node::Sub(pa, c2)
                    },
                    _ => {
                        proof {
                            assert(false);
                        }
                        Node::Empty
                    },
                }
            } else {
                let r0 = Node::from_pair(common, ca, cb, na, filtered);
                proof {
                    lemma_height_mono(nag, ha, ha + hb);
                    lemma_height_mono(fg, hb, ha + hb);
                }
                r0
            };
            proof {
                assert forall|k: Seq<u8>| #[trigger] lookup(r0, k) == applied(lookup(a_node, k), lookup(b_node, k)) by {
                    lemma_shift(pav, pa2, common@, ca, cham, k);
                    lemma_shift(pbv, pb2, common@, cb, chbm, k);
                    if common@.len() < k.len() && k.take(common@.len() as int) == common@ {
                        lemma_split(common@, k);
                        assert(lookup(fg, k.skip(common@.len() + 1int)) == applied(None, lookup(nbg, k.skip(common@.len() + 1int))));
                    }
                }
                assert forall|k: Seq<u8>| #[trigger] lookup(Node::<Option<V>>::Empty, k) == taken(lookup(a_node, k), lookup(b_node, k)) by {
                    lemma_shift(pav, pa2, common@, ca, cham, k);
                    lemma_shift(pbv, pb2, common@, cb, chbm, k);
                }
                lemma_empty_ok::<Option<V>>();
            }
            (r0, Node::Empty)
        }
    }

    /// Apply the change set of branch children `chb` to the branch children `cha`, both
    /// under the shared bytes `p`; each side that ends with fewer than two children is
    /// merged into the one left. `hca` and `hcb` bound the children's depths, `m` the
    /// calling depth; they only serve the proof.
    fn op_children(
        p: Vec<u8>,
        cha: ArrayMap<Node<V>>,
        chb: ArrayMap<Node<Option<V>>>,
        Ghost(hca): Ghost<nat>,
        Ghost(hcb): Ghost<nat>,
        Ghost(m): Ghost<nat>,
    ) -> (r: (Node<V>, Node<Option<V>>))
        requires
            hca + hcb < m,
            forall|c: u8| #[trigger] cha@.contains_key(c) ==> !(cha@[c] is Empty) && node_wf(cha@[c]) && height_le(cha@[c], hca),
            forall|c: u8| #[trigger] chb@.contains_key(c) ==> !(chb@[c] is Empty) && node_wf(chb@[c]) && height_le(chb@[c], hcb),
            keys_apart(Node::Sub(p, cha), Node::Sub(p, chb)),
        ensures
            node_wf(r.0),
            node_wf(r.1),
            height_le(r.0, hca + hcb + 2),
            height_le(r.1, hca + hcb + 2),
            forall|k: Seq<u8>| #[trigger] lookup(r.0, k) == applied(lookup(Node::Sub(p, cha), k), lookup(Node::Sub(p, chb), k)),
            forall|k: Seq<u8>| #[trigger] lookup(r.1, k) == taken(lookup(Node::Sub(p, cha), k), lookup(Node::Sub(p, chb), k)),
        decreases m, 0nat,
    {
        let ghost a_node = Node::Sub(p, cha);
        let ghost b_node = Node::Sub(p, chb);
        let ghost cha0 = cha@;
        let ghost chb0 = chb@;
        let ghost cham0 = cha;
        let ghost chbm0 = chb;
        proof {
            assert forall|c: u8| #[trigger] cha0.contains_key(c) implies height_le(cha0[c], hca + hcb + 1) by {
                lemma_height_mono(cha0[c], hca, hca + hcb + 1);
            }
        }
        let mut cha = cha;
        let mut chb = chb;
        let mut outb: ArrayMap<Node<Option<V>>> = ArrayMap::new();
        loop
            invariant
                hca + hcb < m,
                keys_apart(a_node, b_node),
                a_node == Node::Sub(p, cham0),
                b_node == Node::Sub(p, chbm0),
                cha0 == cham0@,
                chb0 == chbm0@,
                forall|c: u8| #[trigger] cha0.contains_key(c) ==> !(cha0[c] is Empty) && node_wf(cha0[c]) && height_le(cha0[c], hca),
                forall|c: u8| #[trigger] chb0.contains_key(c) ==> !(chb0[c] is Empty) && node_wf(chb0[c]) && height_le(chb0[c], hcb),
                forall|c: u8| #[trigger] cha@.contains_key(c) ==> !(cha@[c] is Empty) && node_wf(cha@[c])
                    && height_le(cha@[c], hca + hcb + 1),
                forall|c: u8| #[trigger] outb@.contains_key(c) ==> !(outb@[c] is Empty) && node_wf(outb@[c])
                    && height_le(outb@[c], hca + hcb + 1),
                forall|c: u8| #[trigger] chb@.contains_key(c) ==> chb0.contains_key(c) && chb@[c] == chb0[c]
                    && cha@.contains_key(c) == cha0.contains_key(c) && (cha0.contains_key(c) ==> cha@[c] == cha0[c])
                    && !outb@.contains_key(c),
                forall|c: u8| !#[trigger] chb0.contains_key(c) ==> cha@.contains_key(c) == cha0.contains_key(c)
                    && (cha0.contains_key(c) ==> cha@[c] == cha0[c]) && !outb@.contains_key(c),
                forall|c: u8, r: Seq<u8>| !chb@.contains_key(c) && chb0.contains_key(c) ==>
                    #[trigger] slot(cha@, c, r) == applied(slot(cha0, c, r), slot(chb0, c, r)),
                forall|c: u8, r: Seq<u8>| !chb@.contains_key(c) && chb0.contains_key(c) ==>
                    #[trigger] slot(outb@, c, r) == taken(slot(cha0, c, r), slot(chb0, c, r)),
            ensures
                chb@.len() == 0,
            decreases chb@.len(),
        {
            proof {
                use_type_invariant(&chb);
                chb.lemma_key_seq();
            }
            let ghost cha_before = cha@;
            let ghost chb_before = chb@;
            let ghost outb_before = outb@;
            match chb.pop_first() {
                Some((c, nb)) => {
                    proof {
                        assert(chb_before.contains_key(c));
                    }
                    let na = match cha.remove(c) {
                        Some(na) => na,
                        None => Node::Empty,
                    };
                    proof {
                        lemma_empty_ok::<V>();
                        assert(na == child_or_empty(cha0, c));
                        assert forall|r: Seq<u8>| #[trigger] lookup(na, r) is Some implies lookup(a_node, join(p@, c, r)) is Some by {
                            lemma_lookup_join(p, cham0, c, r);
                        }
                        assert forall|r: Seq<u8>| #[trigger] lookup(nb, r) is Some implies lookup(b_node, join(p@, c, r)) is Some by {
                            lemma_lookup_join(p, chbm0, c, r);
                        }
                        lemma_keys_apart_below(a_node, b_node, na, nb, p@, c);
                    }
                    let (ma, mb) = na.op(nb, Ghost(hca), Ghost(hcb));
                    if !ma.is_empty() {
                        cha.insert(c, ma);
                    }
                    if !mb.is_empty() {
                        outb.insert(c, mb);
                    }
                    proof {
                        assert forall|r: Seq<u8>| #[trigger] slot(cha@, c, r) == applied(slot(cha0, c, r), slot(chb0, c, r)) by {
                            assert(lookup(ma, r) == applied(lookup(na, r), lookup(nb, r)));
                        }
                        assert forall|r: Seq<u8>| #[trigger] slot(outb@, c, r) == taken(slot(cha0, c, r), slot(chb0, c, r)) by {
                            assert(lookup(mb, r) == taken(lookup(na, r), lookup(nb, r)));
                        }
                        assert forall|x: u8, r: Seq<u8>| !chb@.contains_key(x) && chb0.contains_key(x) implies
                            #[trigger] slot(cha@, x, r) == applied(slot(cha0, x, r), slot(chb0, x, r)) by {
                            if x != c {
                                assert(!chb_before.contains_key(x));
                                assert(slot(cha@, x, r) == slot(cha_before, x, r));
                            }
                        }
                        assert forall|x: u8, r: Seq<u8>| !chb@.contains_key(x) && chb0.contains_key(x) implies
                            #[trigger] slot(outb@, x, r) == taken(slot(cha0, x, r), slot(chb0, x, r)) by {
                            if x != c {
                                assert(!chb_before.contains_key(x));
                                assert(slot(outb@, x, r) == slot(outb_before, x, r));
                            }
                        }
                        assert forall|x: u8| #[trigger] cha@.contains_key(x) implies !(cha@[x] is Empty) && node_wf(cha@[x])
                            && height_le(cha@[x], hca + hcb + 1) by {
                            if x != c {
                                assert(cha_before.contains_key(x));
                            }
                        }
                        assert forall|x: u8| #[trigger] outb@.contains_key(x) implies !(outb@[x] is Empty) && node_wf(outb@[x])
                            && height_le(outb@[x], hca + hcb + 1) by {
                            if x != c {
                                assert(outb_before.contains_key(x));
                            }
                        }
                        assert forall|x: u8| #[trigger] chb@.contains_key(x) implies chb0.contains_key(x) && chb@[x] == chb0[x]
                            && cha@.contains_key(x) == cha0.contains_key(x) && (cha0.contains_key(x) ==> cha@[x] == cha0[x])
                            && !outb@.contains_key(x) by {
                            assert(chb_before.contains_key(x));
                        }
                    }
                },
                None => {
                    break;
                },
            }
        }
        proof {
            use_type_invariant(&chb);
            chb.lemma_key_seq();
            assert forall|c: u8| !#[trigger] chb@.contains_key(c) by {
                if chb@.contains_key(c) {
                    assert(chb.key_seq().contains(c));
                }
            }
            assert forall|c: u8| #[trigger] cha@.contains_key(c) implies height_le(cha@[c], (hca + hcb + 2 - 1) as nat) by {}
            assert forall|c: u8| #[trigger] outb@.contains_key(c) implies height_le(outb@[c], (hca + hcb + 2 - 1) as nat) by {}
            lemma_height_make(p, cha, hca + hcb + 2);
        }
        let ghost chg = cha;
        let ghost outg = outb;
        let pc = p.clone();
        proof {
            lemma_height_make(pc, outb, hca + hcb + 2);
        }
        let r0 = Node::collapse(p, cha);
        let r1 = Node::collapse(pc, outb);
        proof {
            assert forall|k: Seq<u8>| #[trigger] lookup(r0, k) == applied(lookup(a_node, k), lookup(b_node, k)) by {
                assert(lookup(r0, k) == lookup(Node::Sub(p, chg), k));
                if p@.len() < k.len() && k.take(p@.len() as int) == p@ {
                    lemma_split(p@, k);
                    let x = k[p@.len() as int];
                    let rk = k.skip(p@.len() + 1int);
                    lemma_lookup_join(p, chg, x, rk);
                    lemma_lookup_join(p, cham0, x, rk);
                    lemma_lookup_join(p, chbm0, x, rk);
                    if chb0.contains_key(x) {
                        assert(slot(chg@, x, rk) == applied(slot(cha0, x, rk), slot(chb0, x, rk)));
                    }
                }
            }
            assert forall|k: Seq<u8>| #[trigger] lookup(r1, k) == taken(lookup(a_node, k), lookup(b_node, k)) by {
                assert(lookup(r1, k) == lookup(Node::Sub(pc, outg), k));
                if p@.len() < k.len() && k.take(p@.len() as int) == p@ {
                    lemma_split(p@, k);
                    let x = k[p@.len() as int];
                    let rk = k.skip(p@.len() + 1int);
                    lemma_lookup_join(pc, outg, x, rk);
                    lemma_lookup_join(p, cham0, x, rk);
                    lemma_lookup_join(p, chbm0, x, rk);
                    if chb0.contains_key(x) {
                        assert(slot(outg@, x, rk) == taken(slot(cha0, x, rk), slot(chb0, x, rk)));
                    }
                }
            }
        }
        (r0, r1)
    }
}

} // verus!
