use vstd::prelude::*;
use crate::array_map::ArrayMap;

verus! {

/// A child slot of an inner node: one key (the part after this level's byte) with
/// its value, a node holding at least two keys, or nothing.
pub enum SubTree<V> {
    Leaf(Vec<u8>, V),
    Sub(Box<Node<V>>),
    Empty,
}

/// A node of the hash trie. Keys are byte strings of one fixed length per level;
/// the first byte picks a child.
pub enum Node<V> {
    Inner(ArrayMap<SubTree<V>>),
    Deepest(ArrayMap<V>),
}

/// The value that `n` holds at `key` (the rest of the key at this level).
pub open spec fn node_lookup<V>(n: Node<V>, key: Seq<u8>) -> Option<V>
    decreases key.len(), 0nat,
{
    match n {
        Node::Deepest(m) => if key.len() == 1 && m@.contains_key(key[0]) {
            Some(m@[key[0]])
        } else {
            None
        },
        Node::Inner(m) => if key.len() >= 1 && m@.contains_key(key[0]) {
            sub_lookup(m@[key[0]], key.drop_first())
        } else {
            None
        },
    }
}

/// The value that a child slot holds at `key`.
pub open spec fn sub_lookup<V>(s: SubTree<V>, key: Seq<u8>) -> Option<V>
    decreases key.len(), 1nat,
{
    match s {
        SubTree::Leaf(k, v) => if k@ == key {
            Some(v)
        } else {
            None
        },
        SubTree::Sub(b) => node_lookup(*b, key),
        SubTree::Empty => None,
    }
}

/// Two different keys are present.
pub open spec fn holds_two<V>(n: Node<V>, len: nat) -> bool {
    exists|a: Seq<u8>, b: Seq<u8>| a.len() == len && b.len() == len && a != b
        && #[trigger] node_lookup(n, a) is Some && #[trigger] node_lookup(n, b) is Some
}

/// Shape of a node for keys of length `len`: the deepest level at length one,
/// every child slot well-formed one byte shorter.
pub open spec fn node_wf<V>(n: Node<V>, len: nat) -> bool
    decreases len, 0nat,
{
    match n {
        Node::Deepest(m) => len == 1,
        Node::Inner(m) => len >= 2 && forall|k: u8| #[trigger] m@.contains_key(k) ==> sub_wf(m@[k], (len - 1) as nat),
    }
}

/// Shape of a child slot for keys of length `len`: a leaf with a key of that length,
/// or a well-formed node that holds at least two keys (never an empty slot).
pub open spec fn sub_wf<V>(s: SubTree<V>, len: nat) -> bool
    decreases len, 1nat,
{
    match s {
        SubTree::Leaf(r, v) => r@.len() == len,
        SubTree::Sub(b) => node_wf(*b, len) && holds_two(*b, len),
        SubTree::Empty => false,
    }
}

/// The map that a node of length-`len` keys stands for.
pub open spec fn node_view<V>(n: Node<V>, len: nat) -> Map<Seq<u8>, V> {
    Map::new(
        |k: Seq<u8>| k.len() == len && node_lookup(n, k) is Some,
        |k: Seq<u8>| node_lookup(n, k)->Some_0,
    )
}

/// A key of the node has exactly the node's key length.
pub proof fn lemma_lookup_len<V>(n: Node<V>, len: nat, k: Seq<u8>)
    requires
        node_wf(n, len),
        node_lookup(n, k) is Some,
    ensures
        k.len() == len,
    decreases len,
{
    match n {
        Node::Deepest(m) => {},
        Node::Inner(m) => {
            assert(m@.contains_key(k[0]));
            let s = m@[k[0]];
            assert(sub_wf(s, (len - 1) as nat));
            match s {
                SubTree::Leaf(r, v) => {},
                SubTree::Sub(b) => {
                    lemma_lookup_len(*b, (len - 1) as nat, k.drop_first());
                },
                SubTree::Empty => {},
            }
        },
    }
}

/// The key `a` followed by `rest`.
pub open spec fn cons(a: u8, rest: Seq<u8>) -> Seq<u8> {
    seq![a] + rest
}

/// The node holds no keys.
pub open spec fn holds_none<V>(n: Node<V>) -> bool {
    forall|k: Seq<u8>| #[trigger] node_lookup(n, k) is None
}

/// The node holds exactly the key `k`.
pub open spec fn holds_one<V>(n: Node<V>, k: Seq<u8>) -> bool {
    node_lookup(n, k) is Some && forall|j: Seq<u8>| #[trigger] node_lookup(n, j) is Some ==> j == k
}

impl<V> Node<V> {
    /// The value at `key`.
    pub fn get(&self, key: &[u8]) -> (r: Option<&V>)
        ensures
            r == match node_lookup(*self, key@) {
                Some(v) => Some(&v),
                None => None::<&V>,
            },
        decreases key@.len(), 0nat,
    {
        match self {
            Node::Deepest(m) => {
                if key.len() == 1 {
                    m.get(key[0])
                } else {
                    None
                }
            },
            Node::Inner(m) => {
                if key.len() >= 1 {
                    match m.get(key[0]) {
                        Some(sub) => {
                            let rest = &key[1..key.len()];
                            proof {
                                assert(rest@ =~= key@.drop_first());
                            }
                            sub.get(rest)
                        },
                        None => None,
                    }
                } else {
                    None
                }
            },
        }
    }
}

impl<V> Node<V> {
    /// A node holding exactly two entries, at the different keys `a` and `b` of one length.
    pub fn from_pair(a: &[u8], va: V, b: &[u8], vb: V) -> (r: Node<V>)
        requires
            a@.len() == b@.len(),
            a@.len() >= 1,
            a@ != b@,
        ensures
            node_wf(r, a@.len()),
            forall|k: Seq<u8>| #[trigger] node_lookup(r, k) == if k == a@ {
                Some(va)
            } else if k == b@ {
                Some(vb)
            } else {
                None
            },
        decreases a@.len(),
    {
        if a.len() == 1 {
            let mut m = ArrayMap::new();
            m.insert(a[0], va);
            m.insert(b[0], vb);
            let r = Node::Deepest(m);
            proof {
                assert(a@[0] != b@[0]) by {
                    assert(a@ =~= seq![a@[0]]);
                    assert(b@ =~= seq![b@[0]]);
                }
                assert forall|k: Seq<u8>| #[trigger] node_lookup(r, k) == if k == a@ {
                    Some(va)
                } else if k == b@ {
                    Some(vb)
                } else {
                    None
                } by {
                    if k.len() == 1 {
                        if k[0] == a@[0] {
                            assert(k =~= a@);
                        } else if k[0] == b@[0] {
                            assert(k =~= b@);
                        }
                    }
                }
            }
            r
        } else {
            let ra = vstd::slice::slice_subrange(a, 1, a.len());
            let rb = vstd::slice::slice_subrange(b, 1, b.len());
            proof {
                assert(ra@ =~= a@.drop_first());
                assert(rb@ =~= b@.drop_first());
                assert(a@ =~= cons(a@[0], ra@));
                assert(b@ =~= cons(b@[0], rb@));
            }
            let mut m = ArrayMap::new();
            if a[0] == b[0] {
                let sub = Node::from_pair(ra, va, rb, vb);
                proof {
                    let ghost x = ra@;
                    let ghost y = rb@;
                    assert(node_lookup(sub, x) is Some && node_lookup(sub, y) is Some);
                    assert(holds_two(sub, ra@.len()));
                }
                m.insert(a[0], SubTree::Sub(Box::new(sub)));
                let r = Node::Inner(m);
                proof {
                    assert forall|k: Seq<u8>| #[trigger] node_lookup(r, k) == if k == a@ {
                        Some(va)
                    } else if k == b@ {
                        Some(vb)
                    } else {
                        None
                    } by {
                        if k.len() >= 1 && k[0] == a@[0] {
                            let t = k.drop_first();
                            assert(node_lookup(sub, t) == if t == ra@ {
                                Some(va)
                            } else if t == rb@ {
                                Some(vb)
                            } else {
                                None
                            });
                            assert(k =~= cons(k[0], t));
                        }
                    }
                }
                r
            } else {
                m.insert(a[0], SubTree::Leaf(vstd::slice::slice_to_vec(ra), va));
                m.insert(b[0], SubTree::Leaf(vstd::slice::slice_to_vec(rb), vb));
                let r = Node::Inner(m);
                proof {
                    assert forall|k: Seq<u8>| #[trigger] node_lookup(r, k) == if k == a@ {
                        Some(va)
                    } else if k == b@ {
                        Some(vb)
                    } else {
                        None
                    } by {
                        if k.len() >= 1 {
                            let t = k.drop_first();
                            assert(k =~= cons(k[0], t));
                        }
                    }
                }
                r
            }
        }
    }
}

/// A well-formed child slot holds some key, of the slot's key length.
pub proof fn lemma_sub_some<V>(s: SubTree<V>, len: nat) -> (k: Seq<u8>)
    requires
        sub_wf(s, len),
    ensures
        sub_lookup(s, k) is Some,
        k.len() == len,
{
    match s {
        SubTree::Leaf(r, v) => r@,
        SubTree::Sub(b) => {
            let (x, y) = choose|x: Seq<u8>, y: Seq<u8>| x.len() == len && y.len() == len && x != y
                && #[trigger] node_lookup(*b, x) is Some && #[trigger] node_lookup(*b, y) is Some;
            x
        },
        SubTree::Empty => Seq::empty(),
    }
}

/// What a lookup gives after removing `key`.
pub open spec fn after_remove<V>(before: Option<V>, k: Seq<u8>, key: Seq<u8>) -> Option<V> {
    if k == key {
        None
    } else {
        before
    }
}

/// For a key that both `a` and `b` hold, whether appending `b` to `a` keeps the value
/// of `a`: going down the key, the first level where the two slots differ in kind
/// has a leaf in `a` and a node in `b`.
pub open spec fn node_left_wins<V>(a: Node<V>, b: Node<V>, key: Seq<u8>) -> bool
    decreases key.len(), 0nat,
{
    match a {
        Node::Inner(ma) => match b {
            Node::Inner(mb) => key.len() >= 1 && ma@.contains_key(key[0]) && mb@.contains_key(key[0])
                && sub_left_wins(ma@[key[0]], mb@[key[0]], key.drop_first()),
            Node::Deepest(_) => false,
        },
        Node::Deepest(_) => false,
    }
}

/// The same for two child slots.
pub open spec fn sub_left_wins<V>(a: SubTree<V>, b: SubTree<V>, key: Seq<u8>) -> bool
    decreases key.len(), 1nat,
{
    match a {
        SubTree::Leaf(_, _) => b is Sub,
        SubTree::Sub(x) => match b {
            SubTree::Sub(y) => node_left_wins(*x, *y, key),
            _ => false,
        },
        SubTree::Empty => false,
    }
}

/// What a lookup gives after appending: the value present on one side, or, for a key
/// on both sides, the left one where `left` holds and the right one otherwise.
pub open spec fn after_append<V>(x: Option<V>, y: Option<V>, left: bool) -> Option<V> {
    match x {
        Some(a) => match y {
            Some(b) => if left {
                Some(a)
            } else {
                Some(b)
            },
            None => Some(a),
        },
        None => y,
    }
}

/// What the slot at byte `j` of `m` holds at `t`.
pub open spec fn slot_lookup<V>(m: Map<u8, SubTree<V>>, j: u8, t: Seq<u8>) -> Option<V> {
    if m.contains_key(j) {
        sub_lookup(m[j], t)
    } else {
        None
    }
}

/// Whether the left value wins at `t` for the slots at byte `j`.
pub open spec fn slot_left_wins<V>(ma: Map<u8, SubTree<V>>, mb: Map<u8, SubTree<V>>, j: u8, t: Seq<u8>) -> bool {
    ma.contains_key(j) && mb.contains_key(j) && sub_left_wins(ma[j], mb[j], t)
}

/// The slot `s` is what appending the slots at byte `j` of `mb` to those of `ma` gives.
pub open spec fn slot_merged<V>(s: SubTree<V>, ma: Map<u8, SubTree<V>>, mb: Map<u8, SubTree<V>>, j: u8) -> bool {
    forall|t: Seq<u8>| #[trigger] sub_lookup(s, t) == after_append(slot_lookup(ma, j, t), slot_lookup(mb, j, t), slot_left_wins(ma, mb, j, t))
}

/// What a lookup gives after intersecting two key sets.
pub open spec fn after_intersect(x: Option<()>, y: Option<()>) -> Option<()> {
    if x is Some && y is Some {
        Some(())
    } else {
        None
    }
}

/// A well-formed node with a child slot or a deepest entry holds some key.
pub proof fn lemma_node_some<V>(n: Node<V>, len: nat, j: u8)
    requires
        node_wf(n, len),
        match n {
            Node::Inner(m) => m@.contains_key(j),
            Node::Deepest(m) => m@.contains_key(j),
        },
    ensures
        !holds_none(n),
{
    match n {
        Node::Inner(m) => {
            let t = lemma_sub_some(m@[j], (len - 1) as nat);
            let k = cons(j, t);
            assert(k.drop_first() =~= t);
            assert(node_lookup(n, k) is Some);
        },
        Node::Deepest(m) => {
            assert(node_lookup(n, seq![j]) is Some);
        },
    }
}

/// What a lookup gives after setting `value` at `key`.
pub open spec fn after_insert<V>(before: Option<V>, k: Seq<u8>, key: Seq<u8>, value: V) -> Option<V> {
    if k == key {
        Some(value)
    } else {
        before
    }
}

impl<V> Node<V> {
    /// Set the value at `key`, giving back the one it replaces.
    pub fn insert(self, key: &[u8], value: V) -> (r: (Node<V>, Option<V>))
        requires
            node_wf(self, key@.len()),
        ensures
            node_wf(r.0, key@.len()),
            forall|k: Seq<u8>| #[trigger] node_lookup(r.0, k) == after_insert(node_lookup(self, k), k, key@, value),
            r.1 == node_lookup(self, key@),
        decreases key@.len(), 0nat,
    {
        match self {
            Node::Deepest(m) => {
                let mut m = m;
                let ghost m0 = m@;
                let old = m.insert(key[0], value);
                let r = Node::Deepest(m);
                proof {
                    assert forall|k: Seq<u8>| #[trigger] node_lookup(r, k) == after_insert(node_lookup(self, k), k, key@, value) by {
                        if k.len() == 1 && k[0] == key@[0] {
                            assert(k =~= key@);
                        }
                    }
                }
                (r, old)
            },
            Node::Inner(m) => {
                let mut m = m;
                let ghost m0 = m@;
                let rest = vstd::slice::slice_subrange(key, 1, key.len());
                proof {
                    assert(rest@ =~= key@.drop_first());
                    assert(key@ =~= cons(key@[0], rest@));
                }
                match m.remove(key[0]) {
                    Some(sub) => {
                        proof {
                            assert(sub_wf(sub, rest@.len()));
                        }
                        let (s2, old) = sub.insert(rest, value);
                        m.insert(key[0], s2);
                        let r = Node::Inner(m);
                        proof {
                            assert forall|k: Seq<u8>| #[trigger] node_lookup(r, k) == after_insert(node_lookup(self, k), k, key@, value) by {
                                if k.len() >= 1 && k[0] == key@[0] {
                                    let t = k.drop_first();
                                    assert(sub_lookup(s2, t) == after_insert(sub_lookup(sub, t), t, rest@, value));
                                    assert(k =~= cons(k[0], t));
                                }
                            }
                        }
                        (r, old)
                    },
                    None => {
                        m.insert(key[0], SubTree::Leaf(vstd::slice::slice_to_vec(rest), value));
                        let r = Node::Inner(m);
                        proof {
                            assert forall|k: Seq<u8>| #[trigger] node_lookup(r, k) == after_insert(node_lookup(self, k), k, key@, value) by {
                                if k.len() >= 1 && k[0] == key@[0] {
                                    let t = k.drop_first();
                                    assert(k =~= cons(k[0], t));
                                }
                            }
                        }
                        (r, None)
                    },
                }
            },
        }
    }
}

impl<V> Node<V> {
    /// Remove `key`, giving back its value.
    pub fn remove(self, key: &[u8]) -> (r: (Node<V>, Option<V>))
        requires
            node_wf(self, key@.len()),
        ensures
            node_wf(r.0, key@.len()),
            forall|k: Seq<u8>| #[trigger] node_lookup(r.0, k) == after_remove(node_lookup(self, k), k, key@),
            r.1 == node_lookup(self, key@),
        decreases key@.len(), 0nat,
    {
        match self {
            Node::Deepest(m) => {
                let mut m = m;
                let old = m.remove(key[0]);
                let r = Node::Deepest(m);
                proof {
                    assert forall|k: Seq<u8>| #[trigger] node_lookup(r, k) == after_remove(node_lookup(self, k), k, key@) by {
                        if k.len() == 1 && k[0] == key@[0] {
                            assert(k =~= key@);
                        }
                    }
                }
                (r, old)
            },
            Node::Inner(m) => {
                let mut m = m;
                let rest = vstd::slice::slice_subrange(key, 1, key.len());
                proof {
                    assert(rest@ =~= key@.drop_first());
                    assert(key@ =~= cons(key@[0], rest@));
                }
                match m.remove(key[0]) {
                    Some(sub) => {
                        let ghost m1 = m@;
                        let (s2, old) = sub.remove(rest);
                        if !s2.is_empty() {
                            m.insert(key[0], s2);
                        }
                        let r = Node::Inner(m);
                        proof {
                            assert forall|k: Seq<u8>| #[trigger] node_lookup(r, k) == after_remove(node_lookup(self, k), k, key@) by {
                                if k.len() >= 1 && k[0] == key@[0] {
                                    let t = k.drop_first();
                                    assert(sub_lookup(s2, t) == after_remove(sub_lookup(sub, t), t, rest@));
                                    assert(k =~= cons(k[0], t));
                                }
                            }
                        }
                        (r, old)
                    },
                    None => {
                        let r = Node::Inner(m);
                        proof {
                            assert forall|k: Seq<u8>| #[trigger] node_lookup(r, k) == after_remove(node_lookup(self, k), k, key@) by {
                                if k.len() >= 1 && k[0] == key@[0] {
                                    let t = k.drop_first();
                                    assert(k =~= cons(k[0], t));
                                }
                            }
                        }
                        (r, None)
                    },
                }
            },
        }
    }

    /// If the node holds exactly one entry, take it out (leaving the node empty);
    /// otherwise leave the node as it is.
    pub fn extract_only(self, Ghost(len): Ghost<nat>) -> (r: (Node<V>, Option<(Vec<u8>, V)>))
        requires
            node_wf(self, len),
        ensures
            node_wf(r.0, len),
            match r.1 {
                Some((k, v)) => holds_one(self, k@) && node_lookup(self, k@) == Some(v) && holds_none(r.0),
                None => (forall|k: Seq<u8>| #[trigger] node_lookup(r.0, k) == node_lookup(self, k))
                    && (holds_none(self) || holds_two(self, len)),
            },
    {
        match self {
            Node::Deepest(m) => {
                let mut m = m;
                proof {
                    use_type_invariant(&m);
                    m.lemma_key_seq();
                }
                if m.len() == 1 {
                    let ghost m0 = m@;
                    let p = m.pop_first();
                    match p {
                        Some((k, v)) => {
                            let mut key = Vec::new();
                            key.push(k);
                            let r = Node::Deepest(m);
                            proof {
                                assert forall|j: Seq<u8>| #[trigger] node_lookup(self, j) is Some implies j == key@ by {
                                    assert(m0.dom().contains(j[0]));
                                    if j[0] != k {
                                        assert(m0.dom().remove(k).contains(j[0]));
                                        assert(m0.dom().remove(k).len() == 0);
                                    }
                                    assert(j =~= key@);
                                }
                                assert(node_lookup(self, key@) == Some(v));
                                assert forall|j: Seq<u8>| #[trigger] node_lookup(r, j) is None by {
                                    if j.len() == 1 && m@.contains_key(j[0]) {
                                        assert(m@.dom().len() == 0);
                                        assert(m@.dom().contains(j[0]));
                                    }
                                }
                                assert(holds_one(self, key@));
                                assert(holds_none(r));
                            }
                            (r, Some((key, v)))
                        },
                        None => {
                            proof {
                                assert(false);
                            }
                            (Node::Deepest(m), None)
                        },
                    }
                } else {
                    let r = Node::Deepest(m);
                    proof {
                        let ks = m.key_seq();
                        if m@.len() == 0 {
                            assert forall|j: Seq<u8>| #[trigger] node_lookup(self, j) is None by {
                                if j.len() == 1 && m@.contains_key(j[0]) {
                                    assert(m@.dom().contains(j[0]));
                                }
                            }
                        } else {
                            assert(ks.len() >= 2);
                            let x = seq![ks[0]];
                            let y = seq![ks[1]];
                            assert(ks.contains(ks[0]));
                            assert(ks.contains(ks[1]));
                            assert(node_lookup(self, x) is Some);
                            assert(node_lookup(self, y) is Some);
                            assert(x[0] != y[0]);
                            assert(holds_two(self, len));
                        }
                    }
                    (r, None)
                }
            },
            Node::Inner(m) => {
                let mut m = m;
                proof {
                    use_type_invariant(&m);
                    m.lemma_key_seq();
                }
                if m.len() == 1 {
                    let ghost m0 = m@;
                    let p = m.pop_first();
                    match p {
                        Some((k, sub)) => {
                            match sub {
                                SubTree::Leaf(rest, v) => {
                                    let mut key = Vec::new();
                                    key.push(k);
                                    let mut rest = rest;
                                    let ghost r0 = rest@;
                                    key.append(&mut rest);
                                    let r = Node::Inner(m);
                                    proof {
                                        assert(key@ =~= cons(k, r0));
                                        assert(key@.drop_first() =~= r0);
                                        assert forall|j: Seq<u8>| #[trigger] node_lookup(self, j) is Some implies j == key@ by {
                                            assert(m0.dom().contains(j[0]));
                                            if j[0] != k {
                                                assert(m0.dom().remove(k).contains(j[0]));
                                                assert(m0.dom().remove(k).len() == 0);
                                            }
                                            assert(j =~= cons(j[0], j.drop_first()));
                                        }
                                        assert(node_lookup(self, key@) == Some(v));
                                        assert forall|j: Seq<u8>| #[trigger] node_lookup(r, j) is None by {
                                            if j.len() >= 1 && m@.contains_key(j[0]) {
                                                assert(m@.dom().len() == 0);
                                                assert(m@.dom().contains(j[0]));
                                            }
                                        }
                                        assert(holds_one(self, key@));
                                        assert(holds_none(r));
                                    }
                                    (r, Some((key, v)))
                                },
                                SubTree::Sub(b) => {
                                    let ghost bb = *b;
                                    m.insert(k, SubTree::Sub(b));
                                    let r = Node::Inner(m);
                                    proof {
                                        assert(m@ =~= m0);
                                        assert forall|j: Seq<u8>| #[trigger] node_lookup(r, j) == node_lookup(self, j) by {}
                                        let ghost ln = (len - 1) as nat;
                                        assert(sub_wf(m0[k], ln));
                                        let (x, y) = choose|x: Seq<u8>, y: Seq<u8>| x.len() == ln && y.len() == ln && x != y
                                            && #[trigger] node_lookup(bb, x) is Some && #[trigger] node_lookup(bb, y) is Some;
                                        let cx = cons(k, x);
                                        let cy = cons(k, y);
                                        assert(cx.drop_first() =~= x);
                                        assert(cy.drop_first() =~= y);
                                        assert(node_lookup(self, cx) is Some);
                                        assert(node_lookup(self, cy) is Some);
                                        assert(cx != cy);
                                        assert(holds_two(self, len));
                                    }
                                    (r, None)
                                },
                                SubTree::Empty => {
                                    proof {
                                        assert(sub_wf(m0[k], (len - 1) as nat));
                                        assert(false);
                                    }
                                    (Node::Inner(m), None)
                                },
                            }
                        },
                        None => {
                            proof {
                                assert(false);
                            }
                            (Node::Inner(m), None)
                        },
                    }
                } else {
                    let r = Node::Inner(m);
                    proof {
                        let ks = m.key_seq();
                        if m@.len() == 0 {
                            assert forall|j: Seq<u8>| #[trigger] node_lookup(self, j) is None by {
                                if j.len() >= 1 && m@.contains_key(j[0]) {
                                    assert(m@.dom().contains(j[0]));
                                }
                            }
                        } else {
                            assert(ks.len() >= 2);
                            let k1 = ks[0];
                            let k2 = ks[1];
                            assert(ks.contains(k1));
                            assert(ks.contains(k2));
                            let ghost ln = (len - 1) as nat;
                            let x = lemma_sub_some(m@[k1], ln);
                            let y = lemma_sub_some(m@[k2], ln);
                            let cx = cons(k1, x);
                            let cy = cons(k2, y);
                            assert(cx.drop_first() =~= x);
                            assert(cy.drop_first() =~= y);
                            assert(node_lookup(self, cx) is Some);
                            assert(node_lookup(self, cy) is Some);
                            assert(cx[0] != cy[0]);
                            assert(holds_two(self, len));
                        }
                    }
                    (r, None)
                }
            },
        }
    }
}

impl<V> Node<V> {
    /// Move every entry of `other` into `self`; for a key on both sides the kept value
    /// is the one that `node_left_wins` picks.
    pub fn append(self, other: Node<V>, Ghost(len): Ghost<nat>) -> (r: Node<V>)
        requires
            node_wf(self, len),
            node_wf(other, len),
        ensures
            node_wf(r, len),
            forall|k: Seq<u8>| #[trigger] node_lookup(r, k) == after_append(node_lookup(self, k), node_lookup(other, k), node_left_wins(self, other, k)),
        decreases len, 0nat,
    {
        match self {
            Node::Deepest(ma) => match other {
                Node::Deepest(mb) => {
                    let mut ma = ma;
                    let mut mb = mb;
                    ma.append(&mut mb);
                    let r = Node::Deepest(ma);
                    proof {
                        assert forall|k: Seq<u8>| #[trigger] node_lookup(r, k) == after_append(node_lookup(self, k), node_lookup(other, k), node_left_wins(self, other, k)) by {}
                    }
                    r
                },
                Node::Inner(_) => {
                    proof {
                        assert(false);
                    }
                    Node::Deepest(ma)
                },
            },
            Node::Inner(ma) => match other {
                Node::Inner(mb) => {
                    let mut ma = ma;
                    let mut mb = mb;
                    let ghost ma0 = ma@;
                    let ghost mb0 = mb@;
                    let ghost ln = (len - 1) as nat;
                    loop
                        invariant
                            len >= 2,
                            ln == len - 1,
                            forall|j: u8| #[trigger] ma@.contains_key(j) ==> sub_wf(ma@[j], ln),
                            forall|j: u8| #[trigger] mb@.contains_key(j) ==> sub_wf(mb@[j], ln),
                            forall|j: u8| #[trigger] ma0.contains_key(j) ==> sub_wf(ma0[j], ln),
                            forall|j: u8| #[trigger] mb0.contains_key(j) ==> sub_wf(mb0[j], ln),
                            forall|j: u8| #[trigger] mb@.contains_key(j) ==> mb0.contains_key(j) && mb@[j] == mb0[j]
                                && ma@.contains_key(j) == ma0.contains_key(j)
                                && (ma0.contains_key(j) ==> ma@[j] == ma0[j]),
                            forall|j: u8| !mb@.contains_key(j) && #[trigger] mb0.contains_key(j) ==> ma@.contains_key(j)
                                && slot_merged(ma@[j], ma0, mb0, j),
                            forall|j: u8| !#[trigger] mb0.contains_key(j) ==> ma@.contains_key(j) == ma0.contains_key(j)
                                && (ma0.contains_key(j) ==> ma@[j] == ma0[j]),
                        ensures
                            mb@.len() == 0,
                        decreases mb@.len(),
                    {
                        proof {
                            use_type_invariant(&mb);
                            mb.lemma_key_seq();
                        }
                        let ghost mb_before = mb@;
                        let ghost ma_before = ma@;
                        match mb.pop_first() {
                            Some((k, sb)) => {
                                proof {
                                    assert(mb_before.contains_key(k));
                                    assert(sub_wf(sb, ln));
                                }
                                match ma.remove(k) {
                                    Some(sa) => {
                                        proof {
                                            assert(sub_wf(sa, ln));
                                        }
                                        let merged = sa.append(sb, Ghost(ln));
                                        ma.insert(k, merged);
                                        proof {
                                            assert(ma0.contains_key(k) && ma0[k] == sa);
                                            assert(mb0[k] == sb);
                                            assert forall|t: Seq<u8>| #[trigger] sub_lookup(merged, t) == after_append(slot_lookup(ma0, k, t), slot_lookup(mb0, k, t), slot_left_wins(ma0, mb0, k, t)) by {}
                                            assert(slot_merged(ma@[k], ma0, mb0, k));
                                        }
                                    },
                                    None => {
                                        ma.insert(k, sb);
                                        proof {
                                            assert(!ma0.contains_key(k));
                                            assert forall|t: Seq<u8>| #[trigger] sub_lookup(sb, t) == after_append(slot_lookup(ma0, k, t), slot_lookup(mb0, k, t), slot_left_wins(ma0, mb0, k, t)) by {}
                                            assert(slot_merged(ma@[k], ma0, mb0, k));
                                        }
                                    },
                                }
                                proof {
                                    assert forall|j: u8| !mb@.contains_key(j) && #[trigger] mb0.contains_key(j) implies ma@.contains_key(j)
                                        && slot_merged(ma@[j], ma0, mb0, j) by {
                                        if j != k {
                                            assert(!mb_before.contains_key(j));
                                            assert(ma_before.contains_key(j));
                                            assert(ma@[j] == ma_before[j]);
                                        }
                                    }
                                }
                            },
                            None => {
                                break;
                            },
                        }
                    }
                    let r = Node::Inner(ma);
                    proof {
                        use_type_invariant(&mb);
                        mb.lemma_key_seq();
                        assert forall|j: u8| !#[trigger] mb@.contains_key(j) by {
                            if mb@.contains_key(j) {
                                assert(mb.key_seq().contains(j));
                            }
                        }
                        assert forall|k: Seq<u8>| #[trigger] node_lookup(r, k) == after_append(node_lookup(self, k), node_lookup(other, k), node_left_wins(self, other, k)) by {
                            if k.len() >= 1 {
                                let j = k[0];
                                let t = k.drop_first();
                                if mb0.contains_key(j) {
                                    assert(slot_merged(ma@[j], ma0, mb0, j));
                                    assert(sub_lookup(ma@[j], t) == after_append(slot_lookup(ma0, j, t), slot_lookup(mb0, j, t), slot_left_wins(ma0, mb0, j, t)));
                                }
                            }
                        }
                    }
                    r
                },
                Node::Deepest(_) => {
                    proof {
                        assert(false);
                    }
                    Node::Inner(ma)
                },
            },
        }
    }
}

impl<V> SubTree<V> {
    /// Move every entry of the slot `other` into `self`; for a key on both sides the
    /// kept value is the one that `sub_left_wins` picks.
    pub fn append(self, other: SubTree<V>, Ghost(len): Ghost<nat>) -> (r: SubTree<V>)
        requires
            sub_wf(self, len),
            sub_wf(other, len),
        ensures
            sub_wf(r, len),
            forall|t: Seq<u8>| #[trigger] sub_lookup(r, t) == after_append(sub_lookup(self, t), sub_lookup(other, t), sub_left_wins(self, other, t)),
        decreases len, 1nat,
    {
        match self {
            SubTree::Leaf(ka, va) => match other {
                SubTree::Leaf(kb, vb) => {
                    if crate::seqs::bytes_eq(ka.as_slice(), kb.as_slice()) {
                        let r = SubTree::Leaf(ka, vb);
                        proof {
                            assert forall|t: Seq<u8>| #[trigger] sub_lookup(r, t) == after_append(sub_lookup(self, t), sub_lookup(other, t), sub_left_wins(self, other, t)) by {}
                        }
                        r
                    } else {
                        let ghost xa = ka@;
                        let ghost xb = kb@;
                        proof {
                            if xa.len() == 0 {
                                assert(xa =~= xb);
                            }
                        }
                        let n = Node::from_pair(ka.as_slice(), va, kb.as_slice(), vb);
                        let r = SubTree::Sub(Box::new(n));
                        proof {
                            assert(node_lookup(n, xa) is Some && node_lookup(n, xb) is Some);
                            assert forall|t: Seq<u8>| #[trigger] sub_lookup(r, t) == after_append(sub_lookup(self, t), sub_lookup(other, t), sub_left_wins(self, other, t)) by {
                                assert(sub_lookup(r, t) == node_lookup(n, t));
                            }
                        }
                        r
                    }
                },
                SubTree::Sub(b) => {
                    let ghost bb = *b;
                    let (n, _) = (*b).insert(ka.as_slice(), va);
                    let r = SubTree::Sub(Box::new(n));
                    proof {
                        let (x, y) = choose|x: Seq<u8>, y: Seq<u8>| x.len() == len && y.len() == len && x != y
                            && #[trigger] node_lookup(bb, x) is Some && #[trigger] node_lookup(bb, y) is Some;
                        assert(node_lookup(n, x) is Some && node_lookup(n, y) is Some);
                        assert forall|t: Seq<u8>| #[trigger] sub_lookup(r, t) == after_append(sub_lookup(self, t), sub_lookup(other, t), sub_left_wins(self, other, t)) by {
                            assert(sub_lookup(r, t) == node_lookup(n, t));
                            assert(node_lookup(n, t) == after_insert(node_lookup(bb, t), t, ka@, va));
                        }
                    }
                    r
                },
                SubTree::Empty => {
                    proof {
                        assert(false);
                    }
                    SubTree::Empty
                },
            },
            SubTree::Sub(a) => match other {
                SubTree::Leaf(kb, vb) => {
                    let ghost aa = *a;
                    let (n, _) = (*a).insert(kb.as_slice(), vb);
                    let r = SubTree::Sub(Box::new(n));
                    proof {
                        let (x, y) = choose|x: Seq<u8>, y: Seq<u8>| x.len() == len && y.len() == len && x != y
                            && #[trigger] node_lookup(aa, x) is Some && #[trigger] node_lookup(aa, y) is Some;
                        assert(node_lookup(n, x) is Some && node_lookup(n, y) is Some);
                        assert forall|t: Seq<u8>| #[trigger] sub_lookup(r, t) == after_append(sub_lookup(self, t), sub_lookup(other, t), sub_left_wins(self, other, t)) by {
                            assert(sub_lookup(r, t) == node_lookup(n, t));
                            assert(node_lookup(n, t) == after_insert(node_lookup(aa, t), t, kb@, vb));
                        }
                    }
                    r
                },
                SubTree::Sub(b) => {
                    let ghost aa = *a;
                    let ghost bb = *b;
                    let n = (*a).append(*b, Ghost(len));
                    let r = SubTree::Sub(Box::new(n));
                    proof {
                        let (x, y) = choose|x: Seq<u8>, y: Seq<u8>| x.len() == len && y.len() == len && x != y
                            && #[trigger] node_lookup(aa, x) is Some && #[trigger] node_lookup(aa, y) is Some;
                        assert(node_lookup(n, x) == after_append(node_lookup(aa, x), node_lookup(bb, x), node_left_wins(aa, bb, x)));
                        assert(node_lookup(n, y) == after_append(node_lookup(aa, y), node_lookup(bb, y), node_left_wins(aa, bb, y)));
                        assert(node_lookup(n, x) is Some && node_lookup(n, y) is Some);
                        assert forall|t: Seq<u8>| #[trigger] sub_lookup(r, t) == after_append(sub_lookup(self, t), sub_lookup(other, t), sub_left_wins(self, other, t)) by {
                            assert(sub_lookup(r, t) == node_lookup(n, t));
                        }
                    }
                    r
                },
                SubTree::Empty => {
                    proof {
                        assert(false);
                    }
                    SubTree::Empty
                },
            },
            SubTree::Empty => {
                proof {
                    assert(false);
                }
                SubTree::Empty
            },
        }
    }
}

impl<V> Node<V> {
    /// Whether the node holds no entry.
    pub fn is_empty(&self, Ghost(len): Ghost<nat>) -> (r: bool)
        requires
            node_wf(*self, len),
        ensures
            r == holds_none(*self),
    {
        match self {
            Node::Inner(m) => {
                let r = m.is_empty();
                proof {
                    use_type_invariant(m);
                    m.lemma_key_seq();
                    if r {
                        assert forall|k: Seq<u8>| #[trigger] node_lookup(*self, k) is None by {
                            if k.len() >= 1 && m@.contains_key(k[0]) {
                                assert(m@.dom().contains(k[0]));
                            }
                        }
                    } else {
                        if m.key_seq().len() == 0 {
                            assert forall|j: u8| !m@.contains_key(j) by {
                                if m@.contains_key(j) {
                                    assert(m.key_seq().contains(j));
                                }
                            }
                            assert(m@ =~= Map::empty());
                        }
                        let j = m.key_seq()[0];
                        assert(m.key_seq().contains(j));
                        lemma_node_some(*self, len, j);
                    }
                }
                r
            },
            Node::Deepest(m) => {
                let r = m.is_empty();
                proof {
                    use_type_invariant(m);
                    m.lemma_key_seq();
                    if r {
                        assert forall|k: Seq<u8>| #[trigger] node_lookup(*self, k) is None by {
                            if k.len() == 1 && m@.contains_key(k[0]) {
                                assert(m@.dom().contains(k[0]));
                            }
                        }
                    } else {
                        if m.key_seq().len() == 0 {
                            assert forall|j: u8| !m@.contains_key(j) by {
                                if m@.contains_key(j) {
                                    assert(m.key_seq().contains(j));
                                }
                            }
                            assert(m@ =~= Map::empty());
                        }
                        let j = m.key_seq()[0];
                        assert(m.key_seq().contains(j));
                        lemma_node_some(*self, len, j);
                    }
                }
                r
            },
        }
    }
}

impl Node<()> {
    /// Keep only the keys that `other` holds too.
    pub fn intersect(self, other: &Node<()>, Ghost(len): Ghost<nat>) -> (r: Node<()>)
        requires
            node_wf(self, len),
            node_wf(*other, len),
        ensures
            node_wf(r, len),
            forall|k: Seq<u8>| #[trigger] node_lookup(r, k) == after_intersect(node_lookup(self, k), node_lookup(*other, k)),
        decreases len, 0nat,
    {
        match self {
            Node::Deepest(ma) => match other {
                Node::Deepest(mb) => {
                    let mut ma = ma;
                    let ghost ma0 = ma@;
                    let mut out: ArrayMap<()> = ArrayMap::new();
                    loop
                        invariant
                            forall|j: u8| #[trigger] ma@.contains_key(j) ==> ma0.contains_key(j) && !out@.contains_key(j),
                            forall|j: u8| #[trigger] out@.contains_key(j) ==> ma0.contains_key(j) && mb@.contains_key(j),
                            forall|j: u8| ma0.contains_key(j) && !ma@.contains_key(j) && #[trigger] mb@.contains_key(j) ==> out@.contains_key(j),
                        ensures
                            ma@.len() == 0,
                        decreases ma@.len(),
                    {
                        proof {
                            use_type_invariant(&ma);
                            ma.lemma_key_seq();
                        }
                        match ma.pop_first() {
                            Some((k, v)) => {
                                if mb.contains(k) {
                                    out.insert(k, v);
                                }
                            },
                            None => {
                                break;
                            },
                        }
                    }
                    let r = Node::Deepest(out);
                    proof {
                        use_type_invariant(&ma);
                        ma.lemma_key_seq();
                        assert forall|k: Seq<u8>| #[trigger] node_lookup(r, k) == after_intersect(node_lookup(self, k), node_lookup(*other, k)) by {
                            if k.len() == 1 {
                                if ma@.contains_key(k[0]) {
                                    assert(ma.key_seq().contains(k[0]));
                                }
                            }
                        }
                    }
                    r
                },
                Node::Inner(_) => {
                    proof {
                        assert(false);
                    }
                    Node::Deepest(ma)
                },
            },
            Node::Inner(ma) => match other {
                Node::Inner(mb) => {
                    let mut ma = ma;
                    let ghost ma0 = ma@;
                    let ghost ln = (len - 1) as nat;
                    let mut out: ArrayMap<SubTree<()>> = ArrayMap::new();
                    loop
                        invariant
                            len >= 2,
                            ln == len - 1,
                            forall|j: u8| #[trigger] ma0.contains_key(j) ==> sub_wf(ma0[j], ln),
                            forall|j: u8| #[trigger] mb@.contains_key(j) ==> sub_wf(mb@[j], ln),
                            forall|j: u8| #[trigger] ma@.contains_key(j) ==> ma0.contains_key(j) && ma@[j] == ma0[j] && !out@.contains_key(j),
                            forall|j: u8| #[trigger] out@.contains_key(j) ==> ma0.contains_key(j) && sub_wf(out@[j], ln),
                            forall|j: u8, t: Seq<u8>| ma0.contains_key(j) && !ma@.contains_key(j) ==>
                                #[trigger] slot_lookup(out@, j, t) == after_intersect(slot_lookup(ma0, j, t), slot_lookup(mb@, j, t)),
                        ensures
                            ma@.len() == 0,
                        decreases ma@.len(),
                    {
                        proof {
                            use_type_invariant(&ma);
                            ma.lemma_key_seq();
                        }
                        let ghost ma_before = ma@;
                        let ghost out_before = out@;
                        match ma.pop_first() {
                            Some((k, sa)) => {
                                proof {
                                    assert(ma_before.contains_key(k));
                                }
                                match mb.get(k) {
                                    Some(sb) => {
                                        let s2 = sa.intersect(sb, Ghost(ln));
                                        if !s2.is_empty() {
                                            out.insert(k, s2);
                                        }
                                        proof {
                                            assert forall|t: Seq<u8>| #[trigger] slot_lookup(out@, k, t) == after_intersect(slot_lookup(ma0, k, t), slot_lookup(mb@, k, t)) by {
                                                assert(sub_lookup(s2, t) == after_intersect(sub_lookup(sa, t), sub_lookup(*sb, t)));
                                            }
                                        }
                                    },
                                    None => {
                                        proof {
                                            assert forall|t: Seq<u8>| #[trigger] slot_lookup(out@, k, t) == after_intersect(slot_lookup(ma0, k, t), slot_lookup(mb@, k, t)) by {}
                                        }
                                    },
                                }
                                proof {
                                    assert forall|j: u8, t: Seq<u8>| ma0.contains_key(j) && !ma@.contains_key(j) implies
                                        #[trigger] slot_lookup(out@, j, t) == after_intersect(slot_lookup(ma0, j, t), slot_lookup(mb@, j, t)) by {
                                        if j != k {
                                            assert(!ma_before.contains_key(j));
                                            assert(slot_lookup(out@, j, t) == slot_lookup(out_before, j, t));
                                        }
                                    }
                                }
                            },
                            None => {
                                break;
                            },
                        }
                    }
                    let r = Node::Inner(out);
                    proof {
                        use_type_invariant(&ma);
                        ma.lemma_key_seq();
                        assert forall|k: Seq<u8>| #[trigger] node_lookup(r, k) == after_intersect(node_lookup(self, k), node_lookup(*other, k)) by {
                            if k.len() >= 1 {
                                let j = k[0];
                                let t = k.drop_first();
                                if ma@.contains_key(j) {
                                    assert(ma.key_seq().contains(j));
                                }
                                if ma0.contains_key(j) {
                                    assert(slot_lookup(out@, j, t) == after_intersect(slot_lookup(ma0, j, t), slot_lookup(mb@, j, t)));
                                }
                            }
                        }
                    }
                    r
                },
                Node::Deepest(_) => {
                    proof {
                        assert(false);
                    }
                    Node::Inner(ma)
                },
            },
        }
    }
}

impl SubTree<()> {
    /// Keep only the keys that the slot `other` holds too; a slot left with one key
    /// becomes a leaf, one left with none becomes empty.
    pub fn intersect(self, other: &SubTree<()>, Ghost(len): Ghost<nat>) -> (r: SubTree<()>)
        requires
            sub_wf(self, len),
            sub_wf(*other, len),
        ensures
            r is Empty || sub_wf(r, len),
            forall|t: Seq<u8>| #[trigger] sub_lookup(r, t) == after_intersect(sub_lookup(self, t), sub_lookup(*other, t)),
        decreases len, 1nat,
    {
        match self {
            SubTree::Leaf(ka, va) => match other {
                SubTree::Leaf(kb, vb) => {
                    if crate::seqs::bytes_eq(ka.as_slice(), kb.as_slice()) {
                        let r = SubTree::Leaf(ka, va);
                        proof {
                            assert forall|t: Seq<u8>| #[trigger] sub_lookup(r, t) == after_intersect(sub_lookup(self, t), sub_lookup(*other, t)) by {}
                        }
                        r
                    } else {
                        proof {
                            assert forall|t: Seq<u8>| #[trigger] sub_lookup(SubTree::<()>::Empty, t) == after_intersect(sub_lookup(self, t), sub_lookup(*other, t)) by {}
                        }
                        SubTree::Empty
                    }
                },
                SubTree::Sub(b) => {
                    let found = b.get(ka.as_slice()).is_some();
                    if found {
                        let r = SubTree::Leaf(ka, va);
                        proof {
                            assert forall|t: Seq<u8>| #[trigger] sub_lookup(r, t) == after_intersect(sub_lookup(self, t), sub_lookup(*other, t)) by {}
                        }
                        r
                    } else {
                        proof {
                            assert forall|t: Seq<u8>| #[trigger] sub_lookup(SubTree::<()>::Empty, t) == after_intersect(sub_lookup(self, t), sub_lookup(*other, t)) by {}
                        }
                        SubTree::Empty
                    }
                },
                SubTree::Empty => {
                    proof {
                        assert(false);
                    }
                    SubTree::Empty
                },
            },
            SubTree::Sub(a) => match other {
                SubTree::Leaf(kb, vb) => {
                    let found = a.get(kb.as_slice()).is_some();
                    if found {
                        let r = SubTree::Leaf(vstd::slice::slice_to_vec(kb.as_slice()), ());
                        proof {
                            assert forall|t: Seq<u8>| #[trigger] sub_lookup(r, t) == after_intersect(sub_lookup(self, t), sub_lookup(*other, t)) by {}
                        }
                        r
                    } else {
                        proof {
                            assert forall|t: Seq<u8>| #[trigger] sub_lookup(SubTree::<()>::Empty, t) == after_intersect(sub_lookup(self, t), sub_lookup(*other, t)) by {}
                        }
                        SubTree::Empty
                    }
                },
                SubTree::Sub(b) => {
                    let n = (*a).intersect(b, Ghost(len));
                    if n.is_empty(Ghost(len)) {
                        proof {
                            assert forall|t: Seq<u8>| #[trigger] sub_lookup(SubTree::<()>::Empty, t) == after_intersect(sub_lookup(self, t), sub_lookup(*other, t)) by {
                                assert(node_lookup(n, t) is None);
                            }
                        }
                        SubTree::Empty
                    } else {
                        let (n2, ex) = n.extract_only(Ghost(len));
                        match ex {
                            Some((k, v)) => {
                                let r = SubTree::Leaf(k, v);
                                proof {
                                    lemma_lookup_len(n, len, k@);
                                    assert forall|t: Seq<u8>| #[trigger] sub_lookup(r, t) == after_intersect(sub_lookup(self, t), sub_lookup(*other, t)) by {
                                        assert(node_lookup(n, t) == after_intersect(node_lookup(*a, t), node_lookup(**b, t)));
                                        if node_lookup(n, t) is Some {
                                            assert(t == k@);
                                        }
                                    }
                                }
                                r
                            },
                            None => {
                                let r = SubTree::Sub(Box::new(n2));
                                proof {
                                    let (p, q) = choose|p: Seq<u8>, q: Seq<u8>| p.len() == len && q.len() == len && p != q
                                        && #[trigger] node_lookup(n, p) is Some && #[trigger] node_lookup(n, q) is Some;
                                    assert(node_lookup(n2, p) == node_lookup(n, p));
                                    assert(node_lookup(n2, q) == node_lookup(n, q));
                                    assert(holds_two(n2, len));
                                    assert forall|t: Seq<u8>| #[trigger] sub_lookup(r, t) == after_intersect(sub_lookup(self, t), sub_lookup(*other, t)) by {
                                        assert(node_lookup(n2, t) == node_lookup(n, t));
                                        assert(node_lookup(n, t) == after_intersect(node_lookup(*a, t), node_lookup(**b, t)));
                                    }
                                }
                                r
                            },
                        }
                    }
                },
                SubTree::Empty => {
                    proof {
                        assert(false);
                    }
                    SubTree::Empty
                },
            },
            SubTree::Empty => {
                proof {
                    assert(false);
                }
                SubTree::Empty
            },
        }
    }
}

impl<V> SubTree<V> {
    /// Whether the slot is empty.
    pub fn is_empty(&self) -> (r: bool)
        ensures
            r == (*self is Empty),
    {
        match self {
            SubTree::Empty => true,
            _ => false,
        }
    }

    /// Remove `key` from a child slot, giving back its value. A slot left with one
    /// entry becomes a leaf; one left with none becomes empty.
    pub fn remove(self, key: &[u8]) -> (r: (SubTree<V>, Option<V>))
        requires
            sub_wf(self, key@.len()),
        ensures
            r.0 is Empty || sub_wf(r.0, key@.len()),
            forall|k: Seq<u8>| #[trigger] sub_lookup(r.0, k) == after_remove(sub_lookup(self, k), k, key@),
            r.1 == sub_lookup(self, key@),
        decreases key@.len(), 1nat,
    {
        match self {
            SubTree::Leaf(xkey, xvalue) => {
                if crate::seqs::bytes_eq(xkey.as_slice(), key) {
                    (SubTree::Empty, Some(xvalue))
                } else {
                    let r = SubTree::Leaf(xkey, xvalue);
                    proof {
                        assert forall|k: Seq<u8>| #[trigger] sub_lookup(r, k) == after_remove(sub_lookup(self, k), k, key@) by {}
                    }
                    (r, None)
                }
            },
            SubTree::Sub(b) => {
                let ghost len = key@.len();
                let (n, old) = (*b).remove(key);
                let (n2, ex) = n.extract_only(Ghost(len));
                match ex {
                    Some((k, v)) => {
                        let r = SubTree::Leaf(k, v);
                        proof {
                            lemma_lookup_len(n, len, k@);
                            assert forall|j: Seq<u8>| #[trigger] sub_lookup(r, j) == after_remove(sub_lookup(self, j), j, key@) by {
                                assert(node_lookup(n, j) == after_remove(node_lookup(*b, j), j, key@));
                                if node_lookup(n, j) is Some {
                                    assert(j == k@);
                                }
                            }
                        }
                        (r, old)
                    },
                    None => {
                        let r = SubTree::Sub(Box::new(n2));
                        proof {
                            assert forall|j: Seq<u8>| #[trigger] node_lookup(n2, j) is Some implies j.len() == len by {
                                lemma_lookup_len(n2, len, j);
                            }
                            let (x, y) = choose|x: Seq<u8>, y: Seq<u8>| x.len() == len && y.len() == len && x != y
                                && #[trigger] node_lookup(*b, x) is Some && #[trigger] node_lookup(*b, y) is Some;
                            assert(node_lookup(n, x) == after_remove(node_lookup(*b, x), x, key@));
                            assert(node_lookup(n, y) == after_remove(node_lookup(*b, y), y, key@));
                            assert(!holds_none(n));
                            assert forall|j: Seq<u8>| #[trigger] sub_lookup(r, j) == after_remove(sub_lookup(self, j), j, key@) by {
                                assert(node_lookup(n2, j) == node_lookup(n, j));
                                assert(node_lookup(n, j) == after_remove(node_lookup(*b, j), j, key@));
                            }
                            let (p, q) = choose|p: Seq<u8>, q: Seq<u8>| p.len() == len && q.len() == len && p != q
                                && #[trigger] node_lookup(n, p) is Some && #[trigger] node_lookup(n, q) is Some;
                            assert(node_lookup(n2, p) == node_lookup(n, p));
                            assert(node_lookup(n2, q) == node_lookup(n, q));
                            assert(holds_two(n2, len));
                        }
                        (r, old)
                    },
                }
            },
            SubTree::Empty => {
                proof {
                    assert(false);
                }
                (SubTree::Empty, None)
            },
        }
    }

    /// Set the value at `key` in a child slot, giving back the one it replaces.
    pub fn insert(self, key: &[u8], value: V) -> (r: (SubTree<V>, Option<V>))
        requires
            sub_wf(self, key@.len()),
        ensures
            sub_wf(r.0, key@.len()),
            forall|k: Seq<u8>| #[trigger] sub_lookup(r.0, k) == after_insert(sub_lookup(self, k), k, key@, value),
            r.1 == sub_lookup(self, key@),
        decreases key@.len(), 1nat,
    {
        match self {
            SubTree::Leaf(xkey, xvalue) => {
                let ghost xk = xkey@;
                if crate::seqs::bytes_eq(xkey.as_slice(), key) {
                    let r = SubTree::Leaf(xkey, value);
                    proof {
                        assert forall|k: Seq<u8>| #[trigger] sub_lookup(r, k) == after_insert(sub_lookup(self, k), k, key@, value) by {}
                    }
                    (r, Some(xvalue))
                } else {
                    proof {
                        if xk.len() == 0 {
                            assert(xk =~= key@);
                        }
                    }
                    let n = Node::from_pair(xkey.as_slice(), xvalue, key, value);
                    let r = SubTree::Sub(Box::new(n));
                    proof {
                        let ghost a = xk;
                        let ghost b = key@;
                        assert(node_lookup(n, a) is Some && node_lookup(n, b) is Some);
                        assert forall|k: Seq<u8>| #[trigger] sub_lookup(r, k) == after_insert(sub_lookup(self, k), k, key@, value) by {
                            assert(sub_lookup(r, k) == node_lookup(n, k));
                        }
                    }
                    (r, None)
                }
            },
            SubTree::Sub(b) => {
                let (n, old) = (*b).insert(key, value);
                proof {
                    let (x, y) = choose|x: Seq<u8>, y: Seq<u8>| x.len() == key@.len() && y.len() == key@.len() && x != y
                        && #[trigger] node_lookup(*b, x) is Some && #[trigger] node_lookup(*b, y) is Some;
                    assert(node_lookup(n, x) is Some && node_lookup(n, y) is Some);
                }
                let r = SubTree::Sub(Box::new(n));
                proof {
                    assert forall|k: Seq<u8>| #[trigger] sub_lookup(r, k) == after_insert(sub_lookup(self, k), k, key@, value) by {
                        assert(sub_lookup(r, k) == node_lookup(n, k));
                        assert(node_lookup(n, k) == after_insert(node_lookup(*b, k), k, key@, value));
                    }
                }
                (r, old)
            },
            SubTree::Empty => {
                proof {
                    assert(false);
                }
                (SubTree::Empty, None)
            },
        }
    }

    /// The value at `key`.
    pub fn get(&self, key: &[u8]) -> (r: Option<&V>)
        ensures
            r == match sub_lookup(*self, key@) {
                Some(v) => Some(&v),
                None => None::<&V>,
            },
        decreases key@.len(), 1nat,
    {
        match self {
            SubTree::Leaf(k, v) => {
                if crate::seqs::bytes_eq(k.as_slice(), key) {
                    Some(v)
                } else {
                    None
                }
            },
            SubTree::Sub(b) => b.get(key),
            SubTree::Empty => None,
        }
    }
}

} // verus!

verus! {

/// Two nodes of length-`len` keys have the same shape: the same children under the
/// same bytes, down to the same leaves.
pub open spec fn same_node<V>(a: Node<V>, b: Node<V>, len: nat) -> bool
    decreases len, 0nat,
{
    match a {
        Node::Deepest(x) => match b {
            Node::Deepest(y) => x@ == y@,
            Node::Inner(_) => false,
        },
        Node::Inner(x) => match b {
            Node::Inner(y) => len >= 2 && x@.dom() == y@.dom() && forall|c: u8| #[trigger] x@.contains_key(c)
                ==> same_sub(x@[c], y@[c], (len - 1) as nat),
            Node::Deepest(_) => false,
        },
    }
}

/// Two child slots for length-`len` keys have the same shape.
pub open spec fn same_sub<V>(s: SubTree<V>, t: SubTree<V>, len: nat) -> bool
    decreases len, 1nat,
{
    match s {
        SubTree::Leaf(r1, v1) => match t {
            SubTree::Leaf(r2, v2) => r1@ == r2@ && v1 == v2,
            _ => false,
        },
        SubTree::Sub(a) => match t {
            SubTree::Sub(b) => same_node(*a, *b, len),
            _ => false,
        },
        SubTree::Empty => t is Empty,
    }
}

/// A well-formed node holds keys of its length only, so two of them that agree on
/// those keys agree everywhere.
proof fn lemma_lookups_agree<V>(a: Node<V>, b: Node<V>, len: nat)
    requires
        node_wf(a, len),
        node_wf(b, len),
        node_view(a, len) == node_view(b, len),
    ensures
        forall|k: Seq<u8>| #[trigger] node_lookup(a, k) == node_lookup(b, k),
{
    assert forall|k: Seq<u8>| #[trigger] node_lookup(a, k) == node_lookup(b, k) by {
        if node_lookup(a, k) is Some {
            lemma_lookup_len(a, len, k);
            assert(node_view(a, len).contains_key(k));
            assert(node_view(b, len).contains_key(k));
            assert(node_lookup(b, k) is Some);
            assert(node_view(a, len)[k] == node_lookup(a, k)->Some_0);
            assert(node_view(b, len)[k] == node_lookup(b, k)->Some_0);
            assert(node_view(a, len)[k] == node_view(b, len)[k]);
        } else if node_lookup(b, k) is Some {
            lemma_lookup_len(b, len, k);
            assert(node_view(b, len).contains_key(k));
            assert(node_view(a, len).contains_key(k));
        }
    }
}

/// The shape of a hash trie is a function of its entries: two well-formed tries of
/// length-`len` keys with the same entries have the same shape.
pub proof fn lemma_canonical<V>(a: Node<V>, b: Node<V>, len: nat)
    requires
        node_wf(a, len),
        node_wf(b, len),
        node_view(a, len) == node_view(b, len),
    ensures
        same_node(a, b, len),
    decreases len, 0nat,
{
    lemma_lookups_agree(a, b, len);
    match a {
        Node::Deepest(x) => {
            match b {
                Node::Deepest(y) => {
                    assert forall|c: u8| x@.contains_key(c) == y@.contains_key(c) by {
                        assert(node_lookup(a, seq![c]) == node_lookup(b, seq![c]));
                    }
                    assert forall|c: u8| x@.contains_key(c) implies x@[c] == y@[c] by {
                        assert(node_lookup(a, seq![c]) == node_lookup(b, seq![c]));
                    }
                    assert(x@ =~= y@);
                },
                Node::Inner(_) => {},
            }
        },
        Node::Inner(x) => {
            match b {
                Node::Inner(y) => {
                    assert forall|c: u8| #[trigger] x@.contains_key(c) implies y@.contains_key(c) by {
                        let r = lemma_sub_some(x@[c], (len - 1) as nat);
                        assert(cons(c, r).drop_first() =~= r);
                        assert(node_lookup(a, cons(c, r)) is Some);
                    }
                    assert forall|c: u8| #[trigger] y@.contains_key(c) implies x@.contains_key(c) by {
                        let r = lemma_sub_some(y@[c], (len - 1) as nat);
                        assert(cons(c, r).drop_first() =~= r);
                        assert(node_lookup(b, cons(c, r)) is Some);
                        assert(node_lookup(a, cons(c, r)) is Some);
                    }
                    assert(x@.dom() =~= y@.dom());
                    assert forall|c: u8| #[trigger] x@.contains_key(c) implies same_sub(x@[c], y@[c], (len - 1) as nat) by {
                        assert forall|r: Seq<u8>| #[trigger] sub_lookup(x@[c], r) == sub_lookup(y@[c], r) by {
                            assert(cons(c, r).drop_first() =~= r);
                            assert(node_lookup(a, cons(c, r)) == node_lookup(b, cons(c, r)));
                        }
                        lemma_sub_canonical(x@[c], y@[c], (len - 1) as nat);
                    }
                },
                Node::Deepest(_) => {},
            }
        },
    }
}

/// Two well-formed child slots holding the same entries have the same shape.
proof fn lemma_sub_canonical<V>(s: SubTree<V>, t: SubTree<V>, len: nat)
    requires
        sub_wf(s, len),
        sub_wf(t, len),
        forall|r: Seq<u8>| #[trigger] sub_lookup(s, r) == sub_lookup(t, r),
    ensures
        same_sub(s, t, len),
    decreases len, 1nat,
{
    match s {
        SubTree::Leaf(r1, v1) => {
            assert(sub_lookup(s, r1@) is Some);
            match t {
                SubTree::Leaf(r2, v2) => {
                    assert(sub_lookup(t, r1@) is Some);
                },
                SubTree::Sub(b) => {
                    let (x, y) = choose|x: Seq<u8>, y: Seq<u8>| x.len() == len && y.len() == len && x != y
                        && #[trigger] node_lookup(*b, x) is Some && #[trigger] node_lookup(*b, y) is Some;
                    assert(sub_lookup(s, x) is Some);
                    assert(sub_lookup(s, y) is Some);
                },
                SubTree::Empty => {},
            }
        },
        SubTree::Sub(a) => {
            match t {
                SubTree::Leaf(r2, v2) => {
                    let (x, y) = choose|x: Seq<u8>, y: Seq<u8>| x.len() == len && y.len() == len && x != y
                        && #[trigger] node_lookup(*a, x) is Some && #[trigger] node_lookup(*a, y) is Some;
                    assert(sub_lookup(s, x) is Some);
                    assert(sub_lookup(s, y) is Some);
                    assert(sub_lookup(t, x) is Some);
                    assert(sub_lookup(t, y) is Some);
                },
                SubTree::Sub(b) => {
                    assert forall|k: Seq<u8>| node_view(*a, len).contains_key(k) == node_view(*b, len).contains_key(k) by {
                        assert(sub_lookup(s, k) == sub_lookup(t, k));
                    }
                    assert forall|k: Seq<u8>| node_view(*a, len).contains_key(k) implies node_view(*a, len)[k] == node_view(*b, len)[k] by {
                        assert(sub_lookup(s, k) == sub_lookup(t, k));
                    }
                    assert(node_view(*a, len) =~= node_view(*b, len));
                    lemma_canonical(*a, *b, len);
                },
                SubTree::Empty => {},
            }
        },
        SubTree::Empty => {},
    }
}

/// No key of `n` other than `t` shares the first `d` bytes of `t`.
pub open spec fn node_single<V>(n: Node<V>, t: Seq<u8>, d: int) -> bool {
    forall|j: Seq<u8>| #[trigger] node_lookup(n, j) is Some && j.take(d) == t.take(d) ==> j == t
}

/// Some key of `n` other than `t` shares the first `d` bytes of `t`.
pub open spec fn node_multi<V>(n: Node<V>, t: Seq<u8>, d: int) -> bool {
    exists|j: Seq<u8>| #[trigger] node_lookup(n, j) is Some && j != t && j.take(d) == t.take(d)
}

/// No key of the slot `s` other than `t` shares the first `d` bytes of `t`.
pub open spec fn sub_single<V>(s: SubTree<V>, t: Seq<u8>, d: int) -> bool {
    forall|j: Seq<u8>| #[trigger] sub_lookup(s, j) is Some && j.take(d) == t.take(d) ==> j == t
}

/// Some key of the slot `s` other than `t` shares the first `d` bytes of `t`.
pub open spec fn sub_multi<V>(s: SubTree<V>, t: Seq<u8>, d: int) -> bool {
    exists|j: Seq<u8>| #[trigger] sub_lookup(s, j) is Some && j != t && j.take(d) == t.take(d)
}

/// For some number `d` of leading bytes, at least one, `a` holds no key other than `t`
/// with the first `d` bytes of `t`, and `b` holds one.
pub open spec fn node_prefix_left<V>(a: Node<V>, b: Node<V>, t: Seq<u8>, len: nat) -> bool {
    exists|d: int| 1 <= d <= len && #[trigger] node_single(a, t, d) && node_multi(b, t, d)
}

/// The same for child slots, where `d` may be zero.
pub open spec fn sub_prefix_left<V>(sa: SubTree<V>, sb: SubTree<V>, t: Seq<u8>, len: nat) -> bool {
    exists|d: int| 0 <= d <= len && #[trigger] sub_single(sa, t, d) && sub_multi(sb, t, d)
}

/// Looking one byte deeper: in an inner node, sharing the first `d` bytes of `t` is
/// sharing the first `d - 1` bytes of the rest of `t` in the slot for its first byte.
proof fn lemma_prefix_step<V>(m: ArrayMap<SubTree<V>>, t: Seq<u8>, d: int)
    requires
        node_wf(Node::Inner(m), t.len()),
        t.len() >= 1,
        m@.contains_key(t[0]),
        1 <= d <= t.len(),
    ensures
        node_single(Node::Inner(m), t, d) == sub_single(m@[t[0]], t.drop_first(), d - 1),
        node_multi(Node::Inner(m), t, d) == sub_multi(m@[t[0]], t.drop_first(), d - 1),
{
    let n = Node::Inner(m);
    let c = t[0];
    let s = m@[c];
    let t1 = t.drop_first();
    assert(t =~= cons(c, t1));
    assert forall|j: Seq<u8>| #[trigger] node_lookup(n, j) is Some && j.take(d) == t.take(d)
        implies sub_lookup(s, j.drop_first()) is Some && j.drop_first().take(d - 1) == t1.take(d - 1)
            && (j == t <==> j.drop_first() == t1) by {
        lemma_lookup_len(n, t.len(), j);
        assert(j.take(d)[0] == t.take(d)[0]);
        assert(j.drop_first().take(d - 1) =~= j.take(d).drop_first());
        assert(t1.take(d - 1) =~= t.take(d).drop_first());
        assert(j =~= cons(c, j.drop_first()));
    }
    assert forall|j1: Seq<u8>| #[trigger] sub_lookup(s, j1) is Some && j1.take(d - 1) == t1.take(d - 1)
        implies node_lookup(n, cons(c, j1)) is Some && cons(c, j1).take(d) == t.take(d)
            && (cons(c, j1) == t <==> j1 == t1) by {
        assert(cons(c, j1).drop_first() =~= j1);
        assert(node_lookup(n, cons(c, j1)) == sub_lookup(s, j1));
        lemma_lookup_len(n, t.len(), cons(c, j1));
        assert(cons(c, j1).take(d) =~= cons(c, j1.take(d - 1)));
        assert(t.take(d) =~= cons(c, t1.take(d - 1)));
        if cons(c, j1) == t {
            assert(cons(c, j1).drop_first() == t.drop_first());
        }
    }
    if node_multi(n, t, d) {
        let j = choose|j: Seq<u8>| #[trigger] node_lookup(n, j) is Some && j != t && j.take(d) == t.take(d);
        assert(sub_lookup(s, j.drop_first()) is Some);
    }
    if sub_multi(s, t1, d - 1) {
        let j1 = choose|j1: Seq<u8>| #[trigger] sub_lookup(s, j1) is Some && j1 != t1 && j1.take(d - 1) == t1.take(d - 1);
        assert(node_lookup(n, cons(c, j1)) is Some);
    }
    if sub_single(s, t1, d - 1) {
        assert forall|j: Seq<u8>| #[trigger] node_lookup(n, j) is Some && j.take(d) == t.take(d) implies j == t by {
            assert(sub_lookup(s, j.drop_first()) is Some);
        }
    }
    if node_single(n, t, d) {
        assert forall|j1: Seq<u8>| #[trigger] sub_lookup(s, j1) is Some && j1.take(d - 1) == t1.take(d - 1) implies j1 == t1 by {
            assert(node_lookup(n, cons(c, j1)) is Some);
        }
    }
}

/// For a key on both sides, appending `b` to `a` keeps the value of `a` exactly where,
/// for some number `d` of leading bytes (at least one), `a` holds no other key with
/// the key's first `d` bytes and `b` does.
pub proof fn lemma_left_wins_prefix_node<V>(a: Node<V>, b: Node<V>, len: nat, t: Seq<u8>)
    requires
        node_wf(a, len),
        node_wf(b, len),
        t.len() == len,
        node_lookup(a, t) is Some,
        node_lookup(b, t) is Some,
    ensures
        node_left_wins(a, b, t) == node_prefix_left(a, b, t, len),
    decreases len, 0nat,
{
    match a {
        Node::Inner(ma) => match b {
            Node::Inner(mb) => {
                let c = t[0];
                let t1 = t.drop_first();
                lemma_left_wins_prefix_sub(ma@[c], mb@[c], (len - 1) as nat, t1);
                if node_left_wins(a, b, t) {
                    let d1 = choose|d: int| 0 <= d <= len - 1 && #[trigger] sub_single(ma@[c], t1, d) && sub_multi(mb@[c], t1, d);
                    lemma_prefix_step(ma, t, d1 + 1);
                    lemma_prefix_step(mb, t, d1 + 1);
                    assert(node_single(a, t, d1 + 1) && node_multi(b, t, d1 + 1));
                }
                if exists|d: int| 1 <= d <= len && #[trigger] node_single(a, t, d) && node_multi(b, t, d) {
                    let d = choose|d: int| 1 <= d <= len && #[trigger] node_single(a, t, d) && node_multi(b, t, d);
                    lemma_prefix_step(ma, t, d);
                    lemma_prefix_step(mb, t, d);
                    assert(sub_single(ma@[c], t1, d - 1) && sub_multi(mb@[c], t1, d - 1));
                }
            },
            Node::Deepest(_) => {},
        },
        Node::Deepest(_) => match b {
            Node::Deepest(_) => {
                assert forall|d: int| 1 <= d <= len implies !(#[trigger] node_single(a, t, d) && node_multi(b, t, d)) by {
                    if node_multi(b, t, d) {
                        let j = choose|j: Seq<u8>| #[trigger] node_lookup(b, j) is Some && j != t && j.take(d) == t.take(d);
                        assert(j =~= j.take(1));
                        assert(t =~= t.take(1));
                    }
                }
            },
            Node::Inner(_) => {},
        },
    }
}

/// The same for two child slots, counting `d` from zero.
pub proof fn lemma_left_wins_prefix_sub<V>(sa: SubTree<V>, sb: SubTree<V>, len: nat, t: Seq<u8>)
    requires
        sub_wf(sa, len),
        sub_wf(sb, len),
        t.len() == len,
        sub_lookup(sa, t) is Some,
        sub_lookup(sb, t) is Some,
    ensures
        sub_left_wins(sa, sb, t) == sub_prefix_left(sa, sb, t, len),
    decreases len, 1nat,
{
    match sa {
        SubTree::Leaf(..) => {
            assert(sub_single(sa, t, 0));
            match sb {
                SubTree::Sub(y) => {
                    let (x1, y1) = choose|x: Seq<u8>, z: Seq<u8>| x.len() == len && z.len() == len && x != z
                        && #[trigger] node_lookup(*y, x) is Some && #[trigger] node_lookup(*y, z) is Some;
                    assert(x1.take(0) =~= t.take(0));
                    assert(y1.take(0) =~= t.take(0));
                    assert(sub_lookup(sb, x1) is Some && sub_lookup(sb, y1) is Some);
                    if x1 != t {
                        assert(sub_lookup(sb, x1) is Some && x1 != t && x1.take(0) == t.take(0));
                    } else {
                        assert(sub_lookup(sb, y1) is Some && y1 != t && y1.take(0) == t.take(0));
                    }
                    assert(sub_multi(sb, t, 0));
                    assert(sub_single(sa, t, 0) && sub_multi(sb, t, 0));
                    assert(sub_prefix_left(sa, sb, t, len));
                    assert(sub_left_wins(sa, sb, t));
                },
                SubTree::Leaf(kb, vb) => {
                    assert forall|d: int| 0 <= d <= len implies !(#[trigger] sub_single(sa, t, d) && sub_multi(sb, t, d)) by {
                        if sub_multi(sb, t, d) {
                            let j = choose|j: Seq<u8>| #[trigger] sub_lookup(sb, j) is Some && j != t && j.take(d) == t.take(d);
                            assert(j == kb@);
                        }
                    }
                    assert(!sub_left_wins(sa, sb, t));
                    assert(!sub_prefix_left(sa, sb, t, len));
                },
                SubTree::Empty => {
                    assert(false);
                },
            }
        },
        SubTree::Sub(x) => match sb {
            SubTree::Leaf(kb, vb) => {
                assert forall|d: int| 0 <= d <= len implies !(#[trigger] sub_single(sa, t, d) && sub_multi(sb, t, d)) by {
                    if sub_multi(sb, t, d) {
                        let j = choose|j: Seq<u8>| #[trigger] sub_lookup(sb, j) is Some && j != t && j.take(d) == t.take(d);
                        assert(j == kb@);
                    }
                }
                assert(!sub_prefix_left(sa, sb, t, len));
            },
            SubTree::Sub(y) => {
                lemma_left_wins_prefix_node(*x, *y, len, t);
                assert forall|d: int| 0 <= d <= len implies
                    (#[trigger] sub_single(sa, t, d) == node_single(*x, t, d)) && sub_multi(sb, t, d) == node_multi(*y, t, d) by {
                    if sub_single(sa, t, d) {
                        assert forall|j: Seq<u8>| #[trigger] node_lookup(*x, j) is Some && j.take(d) == t.take(d) implies j == t by {
                            assert(sub_lookup(sa, j) is Some);
                        }
                    }
                    if node_multi(*y, t, d) {
                        let j = choose|j: Seq<u8>| #[trigger] node_lookup(*y, j) is Some && j != t && j.take(d) == t.take(d);
                        assert(sub_lookup(sb, j) is Some);
                    }
                    if node_single(*x, t, d) {
                        assert forall|j: Seq<u8>| #[trigger] sub_lookup(sa, j) is Some && j.take(d) == t.take(d) implies j == t by {
                            assert(node_lookup(*x, j) is Some);
                        }
                    }
                    if sub_multi(sb, t, d) {
                        let j = choose|j: Seq<u8>| #[trigger] sub_lookup(sb, j) is Some && j != t && j.take(d) == t.take(d);
                        assert(node_lookup(*y, j) is Some);
                    }
                }
                let (x1, y1) = choose|p: Seq<u8>, q: Seq<u8>| p.len() == len && q.len() == len && p != q
                    && #[trigger] node_lookup(*x, p) is Some && #[trigger] node_lookup(*x, q) is Some;
                assert(x1.take(0) =~= t.take(0));
                assert(y1.take(0) =~= t.take(0));
                assert(!node_single(*x, t, 0));
                assert(!sub_single(sa, t, 0));
                if sub_prefix_left(sa, sb, t, len) {
                    let d = choose|d: int| 0 <= d <= len && #[trigger] sub_single(sa, t, d) && sub_multi(sb, t, d);
                    assert(node_single(*x, t, d) && node_multi(*y, t, d));
                    assert(node_prefix_left(*x, *y, t, len));
                }
                if node_prefix_left(*x, *y, t, len) {
                    let d = choose|d: int| 1 <= d <= len && #[trigger] node_single(*x, t, d) && node_multi(*y, t, d);
                    assert forall|j: Seq<u8>| #[trigger] sub_lookup(sa, j) is Some && j.take(d) == t.take(d) implies j == t by {
                        assert(node_lookup(*x, j) is Some);
                    }
                    let j = choose|j: Seq<u8>| #[trigger] node_lookup(*y, j) is Some && j != t && j.take(d) == t.take(d);
                    assert(sub_lookup(sb, j) is Some);
                    assert(sub_single(sa, t, d) && sub_multi(sb, t, d));
                }
            },
            SubTree::Empty => {},
        },
        SubTree::Empty => {},
    }
}

/// Where appending `b` to `a` keeps the value of `a` at `key`, `b` holds two different
/// keys that start with the same byte as `key`: below that byte `b` has a node, not a
/// single entry.
pub proof fn lemma_left_wins_branches<V>(a: Node<V>, b: Node<V>, len: nat, key: Seq<u8>)
    requires
        node_wf(b, len),
        node_left_wins(a, b, key),
    ensures
        exists|x: Seq<u8>, y: Seq<u8>| x != y && x.len() == len && y.len() == len && x[0] == key[0]
            && y[0] == key[0] && #[trigger] node_lookup(b, x) is Some && #[trigger] node_lookup(b, y) is Some,
{
    match b {
        Node::Inner(mb) => {
            match a {
                Node::Inner(ma) => {
                    let c = key[0];
                    let sa = ma@[c];
                    let sb = mb@[c];
                    assert(sub_left_wins(sa, sb, key.drop_first()));
                    assert(sb is Sub);
                    assert(sub_wf(sb, (len - 1) as nat));
                    let bb = *(sb->Sub_0);
                    assert(holds_two(bb, (len - 1) as nat));
                    let (x1, y1) = choose|x: Seq<u8>, y: Seq<u8>| x.len() == (len - 1) as nat
                        && y.len() == (len - 1) as nat && x != y
                        && #[trigger] node_lookup(bb, x) is Some && #[trigger] node_lookup(bb, y) is Some;
                    let x = cons(c, x1);
                    let y = cons(c, y1);
                    assert(x.drop_first() =~= x1);
                    assert(y.drop_first() =~= y1);
                    assert(node_lookup(b, x) == node_lookup(bb, x1));
                    assert(node_lookup(b, y) == node_lookup(bb, y1));
                    assert(x != y) by {
                        if x == y {
                            assert(x.drop_first() == y.drop_first());
                        }
                    }
                    assert(x[0] == c && y[0] == c);
                },
                Node::Deepest(_) => {},
            }
        },
        Node::Deepest(_) => {},
    }
}

/// The trie with nothing in it, as a new map starts: an inner node without children.
pub open spec fn is_bare<V>(n: Node<V>) -> bool {
    n matches Node::Inner(m) && m@.dom() == Set::<u8>::empty()
}

/// A well-formed trie of 32-byte keys without entries is the bare trie: removing every
/// entry gives back exactly the trie a new map starts with.
pub proof fn lemma_no_entries_bare<V>(n: Node<V>)
    requires
        node_wf(n, 32),
        node_view(n, 32) == Map::<Seq<u8>, V>::empty(),
    ensures
        is_bare(n),
{
    match n {
        Node::Inner(m) => {
            assert forall|c: u8| !m@.dom().contains(c) by {
                if m@.contains_key(c) {
                    let r = lemma_sub_some(m@[c], 31);
                    let k = cons(c, r);
                    assert(k.drop_first() =~= r);
                    assert(node_lookup(n, k) is Some);
                    assert(node_view(n, 32).contains_key(k));
                }
            }
            assert(m@.dom() =~= Set::<u8>::empty());
        },
        Node::Deepest(_) => {},
    }
}

/// A map from hashes to values, held as a trie with one level per hash byte.
pub struct HamtMap<V> {
    root: Node<V>,
}

impl<V> View for HamtMap<V> {
    type V = Map<Seq<u8>, V>;

    /// The entries, keyed by the 32 bytes of the hash.
    closed spec fn view(&self) -> Map<Seq<u8>, V> {
        node_view(self.root, 32)
    }
}

/// `m` holds no key other than `k` that starts with the first `d` bytes of `k`.
pub open spec fn alone_under<V>(m: Map<Seq<u8>, V>, k: Seq<u8>, d: int) -> bool {
    forall|j: Seq<u8>| #[trigger] m.contains_key(j) && j.take(d) == k.take(d) ==> j == k
}

/// `m` holds a key other than `k` that starts with the first `d` bytes of `k`.
pub open spec fn shared_under<V>(m: Map<Seq<u8>, V>, k: Seq<u8>, d: int) -> bool {
    exists|j: Seq<u8>| #[trigger] m.contains_key(j) && j != k && j.take(d) == k.take(d)
}

/// For a hash held by both `a` and `b`, appending `b` to `a` keeps the value of `a`:
/// for some number `d` of leading bytes, at least one, `a` holds no other hash that
/// starts with the same `d` bytes and `b` does.
pub open spec fn kept_on_append<V>(a: Map<Seq<u8>, V>, b: Map<Seq<u8>, V>, k: Seq<u8>) -> bool {
    exists|d: int| 1 <= d <= 32 && #[trigger] alone_under(a, k, d) && shared_under(b, k, d)
}

/// The map that appending `b` to `a` gives, where `left(k)` says, for a key on both
/// sides, whether the value of `a` is kept.
pub open spec fn merge_view<V>(a: Map<Seq<u8>, V>, b: Map<Seq<u8>, V>, left: spec_fn(Seq<u8>) -> bool) -> Map<Seq<u8>, V> {
    Map::new(
        |k: Seq<u8>| a.contains_key(k) || b.contains_key(k),
        |k: Seq<u8>| if a.contains_key(k) && (!b.contains_key(k) || left(k)) {
            a[k]
        } else {
            b[k]
        },
    )
}

impl<V> HamtMap<V> {
    /// The root of the trie.
    pub closed spec fn root_node(&self) -> Node<V> {
        self.root
    }

    /// The trie is well-formed for 32-byte keys.
    #[verifier::type_invariant]
    pub closed spec fn wf(&self) -> bool {
        node_wf(self.root, 32)
    }

    /// Two maps with the same entries are held as tries of the same shape, so that
    /// what is stored for a map depends on its entries alone.
    pub proof fn lemma_same_entries_same_shape(&self, other: &Self)
        requires
            self.wf(),
            other.wf(),
            self@ == other@,
        ensures
            same_node(self.root_node(), other.root_node(), 32),
    {
        lemma_canonical(self.root, other.root, 32);
    }

    /// For a hash that both `self` and `other` hold, whether appending `other` to
    /// `self` keeps the value of `self` (it keeps that of `other` otherwise). This
    /// depends on where the two tries branch: the value of `self` is kept where, going
    /// down the hash, `self` reaches a single entry before `other` does.
    pub closed spec fn keeps_left(&self, other: &Self, key: Seq<u8>) -> bool {
        node_left_wins(self.root, other.root, key)
    }

    /// The value of `self` survives appending `other` at a hash only where `other`
    /// holds two different hashes that start with the same byte as it: wherever
    /// `other` holds its entry under that byte alone, the value of `other` wins.
    pub proof fn lemma_keeps_left_needs_branch(&self, other: &Self, k: Seq<u8>)
        requires
            other.wf(),
            self.keeps_left(other, k),
        ensures
            exists|x: Seq<u8>, y: Seq<u8>| x != y && x[0] == k[0] && y[0] == k[0]
                && #[trigger] other@.contains_key(x) && #[trigger] other@.contains_key(y),
    {
        lemma_left_wins_branches(self.root, other.root, 32, k);
        let (x, y) = choose|x: Seq<u8>, y: Seq<u8>| x != y && x.len() == 32 && y.len() == 32 && x[0] == k[0]
            && y[0] == k[0] && #[trigger] node_lookup(other.root, x) is Some && #[trigger] node_lookup(other.root, y) is Some;
        assert(other@.contains_key(x) && other@.contains_key(y));
    }

    /// Which value appending keeps, said over the two maps' entries alone: for a hash
    /// on both sides, the value of `self` stays exactly where, for some number of
    /// leading bytes, `self` holds no other hash starting with them and `other` does.
    pub proof fn lemma_keeps_left_by_prefix(&self, other: &Self, k: Seq<u8>)
        requires
            self.wf(),
            other.wf(),
            self@.contains_key(k),
            other@.contains_key(k),
        ensures
            self.keeps_left(other, k) == kept_on_append(self@, other@, k),
    {
        lemma_left_wins_prefix_node(self.root, other.root, 32, k);
        assert forall|d: int| 1 <= d <= 32 implies
            (#[trigger] node_single(self.root, k, d) == alone_under(self@, k, d))
            && node_multi(other.root, k, d) == shared_under(other@, k, d) by {
            if node_single(self.root, k, d) {
                assert forall|j: Seq<u8>| #[trigger] self@.contains_key(j) && j.take(d) == k.take(d) implies j == k by {
                    assert(node_lookup(self.root, j) is Some);
                }
            }
            if alone_under(self@, k, d) {
                assert forall|j: Seq<u8>| #[trigger] node_lookup(self.root, j) is Some && j.take(d) == k.take(d) implies j == k by {
                    lemma_lookup_len(self.root, 32, j);
                    assert(self@.contains_key(j));
                }
            }
            if node_multi(other.root, k, d) {
                let j = choose|j: Seq<u8>| #[trigger] node_lookup(other.root, j) is Some && j != k && j.take(d) == k.take(d);
                lemma_lookup_len(other.root, 32, j);
                assert(other@.contains_key(j));
            }
            if shared_under(other@, k, d) {
                let j = choose|j: Seq<u8>| #[trigger] other@.contains_key(j) && j != k && j.take(d) == k.take(d);
                assert(node_lookup(other.root, j) is Some);
            }
        }
        if self.keeps_left(other, k) {
            let d = choose|d: int| 1 <= d <= 32 && #[trigger] node_single(self.root, k, d) && node_multi(other.root, k, d);
            assert(alone_under(self@, k, d) && shared_under(other@, k, d));
        }
        if kept_on_append(self@, other@, k) {
            let d = choose|d: int| 1 <= d <= 32 && #[trigger] alone_under(self@, k, d) && shared_under(other@, k, d);
            assert(node_single(self.root, k, d) && node_multi(other.root, k, d));
            assert(node_prefix_left(self.root, other.root, k, 32));
        }
    }

    /// Appending a map that holds at most one hash is inserting its entry: its value
    /// replaces the value that `self` held under the same hash, if any.
    pub proof fn lemma_append_at_most_one(&self, other: &Self)
        requires
            other.wf(),
            forall|j: Seq<u8>, l: Seq<u8>| #[trigger] other@.contains_key(j) && #[trigger] other@.contains_key(l) ==> j == l,
        ensures
            merge_view(self@, other@, |k: Seq<u8>| self.keeps_left(other, k)) == self@.union_prefer_right(other@),
    {
        assert forall|k: Seq<u8>| other@.contains_key(k) implies !self.keeps_left(other, k) by {
            if self.keeps_left(other, k) {
                self.lemma_keeps_left_needs_branch(other, k);
            }
        }
        assert(merge_view(self@, other@, |k: Seq<u8>| self.keeps_left(other, k)) =~= self@.union_prefer_right(other@));
    }

    /// Every key of the map is 32 bytes long.
    pub proof fn lemma_key_len(&self, k: Seq<u8>)
        requires
            self@.contains_key(k),
        ensures
            k.len() == 32,
    {
    }

    /// An empty map.
    pub fn new() -> (r: Self)
        ensures
            r@ == Map::<Seq<u8>, V>::empty(),
            is_bare(r.root_node()),
    {
        let r = HamtMap { root: Node::Inner(ArrayMap::new()) };
        proof {
            assert(r@ =~= Map::<Seq<u8>, V>::empty());
        }
        r
    }

    /// Set the value at `hash`, giving back the one it replaces.
    pub fn insert(&mut self, hash: crate::hash::Hash, value: V) -> (r: Option<V>)
        ensures
            final(self)@ == old(self)@.insert(hash.deep_view(), value),
            r == if old(self)@.contains_key(hash.deep_view()) {
                Some(old(self)@[hash.deep_view()])
            } else {
                None
            },
    {
        proof {
            use_type_invariant(&*self);
        }
        let key = hash.as_bytes();
        let ghost kv = hash.deep_view();
        let mut root = Node::Inner(ArrayMap::new());
        std::mem::swap(&mut root, &mut self.root);
        let ghost old_root = root;
        let (root, r) = root.insert(key.as_slice(), value);
        self.root = root;
        proof {
            assert(self@ =~= old(self)@.insert(kv, value)) by {
                assert forall|k: Seq<u8>| #[trigger] node_lookup(root, k) == after_insert(node_lookup(old_root, k), k, kv, value) by {}
            }
        }
        r
    }

    /// Remove `hash`, giving back its value. Removing the last entry leaves the bare
    /// trie that a new map starts with.
    pub fn remove(&mut self, hash: crate::hash::Hash) -> (r: Option<V>)
        ensures
            final(self)@ == old(self)@.remove(hash.deep_view()),
            final(self)@ == Map::<Seq<u8>, V>::empty() ==> is_bare(final(self).root_node()),
            r == if old(self)@.contains_key(hash.deep_view()) {
                Some(old(self)@[hash.deep_view()])
            } else {
                None
            },
    {
        proof {
            use_type_invariant(&*self);
        }
        let key = hash.as_bytes();
        let ghost kv = hash.deep_view();
        let mut root = Node::Inner(ArrayMap::new());
        std::mem::swap(&mut root, &mut self.root);
        let ghost old_root = root;
        let (root, r) = root.remove(key.as_slice());
        self.root = root;
        proof {
            assert(self@ =~= old(self)@.remove(kv)) by {
                assert forall|k: Seq<u8>| #[trigger] node_lookup(root, k) == after_remove(node_lookup(old_root, k), k, kv) by {}
            }
            if self@ == Map::<Seq<u8>, V>::empty() {
                lemma_no_entries_bare(root);
            }
        }
        r
    }

    /// A copy of the value at `hash`.
    pub fn get(&self, hash: crate::hash::Hash) -> (r: Option<V>)
        where
            V: Clone,
        ensures
            r is Some == self@.contains_key(hash.deep_view()),
            r matches Some(v) ==> cloned::<V>(self@[hash.deep_view()], v),
    {
        proof {
            use_type_invariant(self);
        }
        let key = hash.as_bytes();
        match self.root.get(key.as_slice()) {
            Some(v) => Some(v.clone()),
            None => None,
        }
    }

    /// Whether `hash` is present.
    pub fn contains(&self, hash: crate::hash::Hash) -> (r: bool)
        ensures
            r == self@.contains_key(hash.deep_view()),
    {
        proof {
            use_type_invariant(self);
        }
        let key = hash.as_bytes();
        self.root.get(key.as_slice()).is_some()
    }

    /// Whether there are no entries.
    pub fn is_empty(&self) -> (r: bool)
        ensures
            r == (self@ == Map::<Seq<u8>, V>::empty()),
    {
        proof {
            use_type_invariant(self);
        }
        let r = self.root.is_empty(Ghost(32));
        proof {
            if r {
                assert(self@ =~= Map::<Seq<u8>, V>::empty());
            } else {
                let k = choose|k: Seq<u8>| #[trigger] node_lookup(self.root, k) is Some;
                lemma_lookup_len(self.root, 32, k);
                assert(self@.contains_key(k));
            }
        }
        r
    }

    /// Remove every entry.
    pub fn clear(&mut self)
        ensures
            final(self)@ == Map::<Seq<u8>, V>::empty(),
    {
        *self = HamtMap::new();
    }

    /// Move every entry of `other` into `self`, leaving `other` empty. For a hash on
    /// both sides, `keeps_left` says whose value stays.
    pub fn append(&mut self, other: &mut Self)
        ensures
            final(self)@ == merge_view(old(self)@, old(other)@, |k: Seq<u8>| old(self).keeps_left(&*old(other), k)),
            final(self)@ == merge_view(old(self)@, old(other)@, |k: Seq<u8>| kept_on_append(old(self)@, old(other)@, k)),
            (forall|j: Seq<u8>, l: Seq<u8>| #[trigger] old(other)@.contains_key(j) && #[trigger] old(other)@.contains_key(l) ==> j == l)
                ==> final(self)@ == old(self)@.union_prefer_right(old(other)@),
            final(other)@ == Map::<Seq<u8>, V>::empty(),
    {
        proof {
            use_type_invariant(&*self);
            use_type_invariant(&*other);
            assert forall|k: Seq<u8>| self@.contains_key(k) && other@.contains_key(k)
                implies self.keeps_left(&*other, k) == kept_on_append(self@, other@, k) by {
                self.lemma_keeps_left_by_prefix(&*other, k);
            }
            assert(merge_view(self@, other@, |k: Seq<u8>| self.keeps_left(&*other, k))
                =~= merge_view(self@, other@, |k: Seq<u8>| kept_on_append(self@, other@, k)));
            if forall|j: Seq<u8>, l: Seq<u8>| #[trigger] other@.contains_key(j) && #[trigger] other@.contains_key(l) ==> j == l {
                self.lemma_append_at_most_one(&*other);
            }
        }
        let mut a = Node::Inner(ArrayMap::new());
        std::mem::swap(&mut a, &mut self.root);
        let mut b = Node::Inner(ArrayMap::new());
        std::mem::swap(&mut b, &mut other.root);
        let ghost (a0, b0) = (a, b);
        let n = a.append(b, Ghost(32));
        self.root = n;
        proof {
            let left = |k: Seq<u8>| old(self).keeps_left(&*old(other), k);
            assert forall|k: Seq<u8>| #[trigger] node_lookup(n, k) == after_append(node_lookup(a0, k), node_lookup(b0, k), node_left_wins(a0, b0, k)) by {}
            assert(self@ =~= merge_view(old(self)@, old(other)@, left));
            assert(other@ =~= Map::<Seq<u8>, V>::empty());
        }
    }
}

/// An empty map.
impl<V> Default for HamtMap<V> {
    fn default() -> (r: Self)
        ensures
            r@ == Map::<Seq<u8>, V>::empty(),
    {
        HamtMap::new()
    }
}

} // verus!

verus! {

/// A set of hashes: a hash trie with no values.
pub struct HamtSet {
    map: HamtMap<()>,
}

impl View for HamtSet {
    type V = Set<Seq<u8>>;

    /// The hashes present, as their 32 bytes.
    closed spec fn view(&self) -> Set<Seq<u8>> {
        self.map@.dom()
    }
}

impl HamtSet {
    /// An empty set.
    pub fn new() -> (r: Self)
        ensures
            r@ == Set::<Seq<u8>>::empty(),
    {
        let r = HamtSet { map: HamtMap::new() };
        proof {
            assert(r@ =~= Set::<Seq<u8>>::empty());
        }
        r
    }

    /// Add `hash`; true when it was not present before.
    pub fn insert(&mut self, hash: crate::hash::Hash) -> (r: bool)
        ensures
            final(self)@ == old(self)@.insert(hash.deep_view()),
            r == !old(self)@.contains(hash.deep_view()),
    {
        let r = self.map.insert(hash, ());
        proof {
            assert(self@ =~= old(self)@.insert(hash.deep_view()));
        }
        r.is_none()
    }

    /// Remove `hash`; true when it was present.
    pub fn remove(&mut self, hash: crate::hash::Hash) -> (r: bool)
        ensures
            final(self)@ == old(self)@.remove(hash.deep_view()),
            r == old(self)@.contains(hash.deep_view()),
    {
        let r = self.map.remove(hash);
        proof {
            assert(self@ =~= old(self)@.remove(hash.deep_view()));
        }
        r.is_some()
    }

    /// Whether `hash` is present.
    pub fn contains(&self, hash: crate::hash::Hash) -> (r: bool)
        ensures
            r == self@.contains(hash.deep_view()),
    {
        self.map.contains(hash)
    }

    /// Move every hash of `other` into `self`, leaving `other` empty.
    pub fn append(&mut self, other: &mut Self)
        ensures
            final(self)@ == old(self)@.union(old(other)@),
            final(other)@ == Set::<Seq<u8>>::empty(),
    {
        self.map.append(&mut other.map);
        proof {
            assert(self@ =~= old(self)@.union(old(other)@));
            assert(other@ =~= Set::<Seq<u8>>::empty());
        }
    }

    /// Keep only the hashes that `other` holds too.
    pub fn intersect(&mut self, other: &Self)
        ensures
            final(self)@ == old(self)@.intersect(other@),
    {
        proof {
            use_type_invariant(&self.map);
            use_type_invariant(&other.map);
        }
        let mut root = Node::Inner(ArrayMap::new());
        std::mem::swap(&mut root, &mut self.map.root);
        let ghost r0 = root;
        let n = root.intersect(&other.map.root, Ghost(32));
        self.map.root = n;
        proof {
            assert forall|k: Seq<u8>| #[trigger] node_lookup(n, k) == after_intersect(node_lookup(r0, k), node_lookup(other.map.root, k)) by {}
            assert(self@ =~= old(self)@.intersect(other@));
        }
    }

    /// Whether there are no hashes.
    pub fn is_empty(&self) -> (r: bool)
        ensures
            r == (self@ == Set::<Seq<u8>>::empty()),
    {
        let r = self.map.is_empty();
        proof {
            if r {
                assert(self@ =~= Set::<Seq<u8>>::empty());
            } else {
                if self@ =~= Set::<Seq<u8>>::empty() {
                    assert(self.map@ =~= Map::<Seq<u8>, ()>::empty());
                }
            }
        }
        r
    }

    /// Remove every hash.
    pub fn clear(&mut self)
        ensures
            final(self)@ == Set::<Seq<u8>>::empty(),
    {
        *self = HamtSet::new();
    }
}

/// An empty set.
impl Default for HamtSet {
    fn default() -> (r: Self)
        ensures
            r@ == Set::<Seq<u8>>::empty(),
    {
        HamtSet::new()
    }
}

} // verus!
