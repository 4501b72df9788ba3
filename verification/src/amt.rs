use vstd::prelude::*;
use crate::error::Error;
use std::marker::PhantomData;
use crate::array_map::ArrayMap;
use crate::traits::{ToOutput, ParseInline};
use crate::amt_ops::{applied, taken, settled, mapped_by, filtered_by, lemma_empty_ok};

verus! {

/// `a` is a prefix of `b` (possibly all of it).
pub open spec fn is_prefix(a: Seq<u8>, b: Seq<u8>) -> bool {
    a.len() <= b.len() && b.take(a.len() as int) == a
}

/// The empty string is a prefix of every string.
pub proof fn lemma_empty_prefix(a: Seq<u8>, b: Seq<u8>)
    requires
        a.len() == 0,
    ensures
        is_prefix(a, b),
{
    assert(b.take(0) =~= a);
}

/// A prefix as long as the string is the string.
pub proof fn lemma_prefix_same_len(a: Seq<u8>, b: Seq<u8>)
    requires
        is_prefix(a, b),
        a.len() == b.len(),
    ensures
        a == b,
{
    assert(b.take(b.len() as int) =~= b);
}

/// A string of at least `n` bytes whose first `n` bytes are not `p` (of length `n`)
/// does not start with `p`.
pub proof fn lemma_not_prefix_take(p: Seq<u8>, v: Seq<u8>)
    requires
        p.len() <= v.len(),
        v.take(p.len() as int) != p,
    ensures
        !is_prefix(p, v),
{
}

/// Two strings that start with the same byte have a prefix relation exactly when
/// their rests have it.
pub proof fn lemma_prefix_drop_first(a: Seq<u8>, b: Seq<u8>)
    requires
        a.len() > 0,
        b.len() > 0,
        a[0] == b[0],
    ensures
        is_prefix(a.drop_first(), b.drop_first()) == is_prefix(a, b),
{
    if is_prefix(a.drop_first(), b.drop_first()) {
        assert(b.take(a.len() as int) =~= seq![b[0]] + b.drop_first().take(a.drop_first().len() as int));
        assert(a =~= seq![a[0]] + a.drop_first());
    }
    if is_prefix(a, b) {
        assert(b.drop_first().take(a.drop_first().len() as int) =~= b.take(a.len() as int).drop_first());
    }
}

/// Length of the common prefix of `a` and `b`. Fails when one is a prefix of the
/// other: then the two cannot sit in different branches.
pub fn common_length(a: &[u8], b: &[u8]) -> (r: Result<usize, Error>)
    ensures
        match r {
            Ok(n) => n < a@.len() && n < b@.len() && a@.take(n as int) == b@.take(n as int) && a@[n as int] != b@[n as int],
            Err(e) => e == Error::Consistency && (is_prefix(a@, b@) || is_prefix(b@, a@)),
        },
{
    let mut n: usize = 0;
    while n < a.len() && n < b.len() && a[n] == b[n]
        invariant
            n <= a@.len(),
            n <= b@.len(),
            a@.take(n as int) == b@.take(n as int),
        decreases a@.len() - n,
    {
        proof {
            assert(a@.take(n + 1) =~= a@.take(n as int).push(a@[n as int]));
            assert(b@.take(n + 1) =~= b@.take(n as int).push(b@[n as int]));
        }
        n = n + 1;
    }
    if n == a.len() || n == b.len() {
        proof {
            if n == a@.len() {
                assert(a@.take(n as int) =~= a@);
            } else {
                assert(b@.take(n as int) =~= b@);
            }
        }
        Err(Error::Consistency)
    } else {
        Ok(n)
    }
}

/// A node of a radix trie over byte-string keys of which none is a prefix of another.
/// A leaf holds the rest of its key; a branch holds the bytes that all its keys share
/// next, then one child per following byte.
pub enum Node<V> {
    Empty,
    Leaf(Vec<u8>, V),
    Sub(Vec<u8>, ArrayMap<Node<V>>),
}

/// The value that `n` holds at `key` (the rest of the key at this node).
pub open spec fn lookup<V>(n: Node<V>, key: Seq<u8>) -> Option<V>
    decreases key.len(),
{
    match n {
        Node::Empty => None,
        Node::Leaf(k, v) => if k@ == key {
            Some(v)
        } else {
            None
        },
        Node::Sub(p, ch) => if p@.len() < key.len() && key.take(p@.len() as int) == p@ && ch@.contains_key(
            key[p@.len() as int],
        ) {
            lookup(ch@[key[p@.len() as int]], key.skip(p@.len() + 1int))
        } else {
            None
        },
    }
}

/// Shape of the branches met along `key`: each has a well-formed child map with at
/// least two children, none of them empty.
pub open spec fn path_ok<V>(n: Node<V>, key: Seq<u8>) -> bool
    decreases key.len(),
{
    match n {
        Node::Sub(p, ch) => {
            &&& ch.wf()
            &&& ch@.dom().len() >= 2
            &&& forall|b: u8| #[trigger] ch@.contains_key(b) ==> !(ch@[b] is Empty)
            &&& (p@.len() < key.len() && key.take(p@.len() as int) == p@ && ch@.contains_key(key[p@.len() as int]))
                ==> path_ok(ch@[key[p@.len() as int]], key.skip(p@.len() + 1int))
        },
        _ => true,
    }
}

/// Every branch of the trie has the shape `path_ok` asks for.
pub open spec fn node_wf<V>(n: Node<V>) -> bool {
    forall|key: Seq<u8>| #[trigger] path_ok(n, key)
}

/// The branches met along `key` are at most `h` deep.
pub open spec fn bounded<V>(n: Node<V>, key: Seq<u8>, h: nat) -> bool
    decreases key.len(),
{
    match n {
        Node::Sub(p, ch) => h > 0 && ((p@.len() < key.len() && key.take(p@.len() as int) == p@ && ch@.contains_key(key[p@.len() as int]))
            ==> bounded(ch@[key[p@.len() as int]], key.skip(p@.len() + 1int), (h - 1) as nat)),
        _ => true,
    }
}

/// The trie is at most `h` branches deep.
pub open spec fn height_le<V>(n: Node<V>, h: nat) -> bool {
    forall|key: Seq<u8>| #[trigger] bounded(n, key, h)
}

/// The key `p`, then `b`, then `rest`.
pub open spec fn join(p: Seq<u8>, b: u8, rest: Seq<u8>) -> Seq<u8> {
    p + seq![b] + rest
}

/// Splitting a joined key gives its parts back.
pub proof fn lemma_join(p: Seq<u8>, b: u8, rest: Seq<u8>)
    ensures
        join(p, b, rest).len() == p.len() + 1 + rest.len(),
        join(p, b, rest).take(p.len() as int) == p,
        join(p, b, rest)[p.len() as int] == b,
        join(p, b, rest).skip(p.len() + 1int) == rest,
{
    assert(join(p, b, rest).take(p.len() as int) =~= p);
    assert(join(p, b, rest).skip(p.len() + 1int) =~= rest);
}

/// A key longer than `p` that starts with `p` is `p`, its next byte, and the rest.
pub proof fn lemma_split(p: Seq<u8>, key: Seq<u8>)
    requires
        p.len() < key.len(),
        key.take(p.len() as int) == p,
    ensures
        key == join(p, key[p.len() as int], key.skip(p.len() + 1int)),
{
    assert(key =~= join(p, key[p.len() as int], key.skip(p.len() + 1int)));
}

/// What a branch holds at a joined key is what the child holds at the rest.
pub proof fn lemma_lookup_join<V>(p: Vec<u8>, ch: ArrayMap<Node<V>>, b: u8, rest: Seq<u8>)
    ensures
        lookup(Node::Sub(p, ch), join(p@, b, rest)) == if ch@.contains_key(b) {
            lookup(ch@[b], rest)
        } else {
            None
        },
{
    lemma_join(p@, b, rest);
}

/// A bound on the depth stays a bound when raised.
pub proof fn lemma_bounded_mono<V>(n: Node<V>, key: Seq<u8>, h: nat, h2: nat)
    requires
        bounded(n, key, h),
        h <= h2,
    ensures
        bounded(n, key, h2),
    decreases key.len(),
{
    if let Node::Sub(p, ch) = n {
        if p@.len() < key.len() && key.take(p@.len() as int) == p@ && ch@.contains_key(key[p@.len() as int]) {
            lemma_bounded_mono(ch@[key[p@.len() as int]], key.skip(p@.len() + 1int), (h - 1) as nat, (h2 - 1) as nat);
        }
    }
}

/// A bound on the depth of a trie stays a bound when raised.
pub proof fn lemma_height_mono<V>(n: Node<V>, h: nat, h2: nat)
    requires
        height_le(n, h),
        h <= h2,
    ensures
        height_le(n, h2),
{
    assert forall|key: Seq<u8>| #[trigger] bounded(n, key, h2) by {
        lemma_bounded_mono(n, key, h, h2);
    }
}

/// Leaves and empty nodes have no depth.
pub proof fn lemma_height_flat<V>(n: Node<V>)
    requires
        !(n is Sub),
    ensures
        height_le(n, 0),
{
    assert forall|key: Seq<u8>| #[trigger] bounded(n, key, 0) by {}
}

/// A child of a branch at most `h` deep is at most `h - 1` deep.
pub proof fn lemma_height_child<V>(p: Vec<u8>, ch: ArrayMap<Node<V>>, h: nat, b: u8)
    requires
        height_le(Node::Sub(p, ch), h),
        ch@.contains_key(b),
    ensures
        h > 0,
        height_le(ch@[b], (h - 1) as nat),
{
    assert(bounded(Node::Sub(p, ch), Seq::empty(), h));
    assert forall|key: Seq<u8>| #[trigger] bounded(ch@[b], key, (h - 1) as nat) by {
        let full = join(p@, b, key);
        lemma_join(p@, b, key);
        assert(bounded(Node::Sub(p, ch), full, h));
    }
}

/// A branch whose children are at most `h - 1` deep is at most `h` deep.
pub proof fn lemma_height_make<V>(p: Vec<u8>, ch: ArrayMap<Node<V>>, h: nat)
    requires
        h > 0,
        forall|b: u8| #[trigger] ch@.contains_key(b) ==> height_le(ch@[b], (h - 1) as nat),
    ensures
        height_le(Node::Sub(p, ch), h),
{
    assert forall|k: Seq<u8>| #[trigger] bounded(Node::Sub(p, ch), k, h) by {
        if p@.len() < k.len() && k.take(p@.len() as int) == p@ && ch@.contains_key(k[p@.len() as int]) {
            assert(height_le(ch@[k[p@.len() as int]], (h - 1) as nat));
            assert(bounded(ch@[k[p@.len() as int]], k.skip(p@.len() + 1int), (h - 1) as nat));
        }
    }
}

/// A child of a well-formed branch is well-formed.
pub proof fn lemma_child_wf<V>(p: Vec<u8>, ch: ArrayMap<Node<V>>, b: u8)
    requires
        node_wf(Node::Sub(p, ch)),
        ch@.contains_key(b),
    ensures
        node_wf(ch@[b]),
        !(ch@[b] is Empty),
        ch.wf(),
        ch@.dom().len() >= 2,
{
    assert(path_ok(Node::Sub(p, ch), Seq::empty()));
    assert forall|key: Seq<u8>| #[trigger] path_ok(ch@[b], key) by {
        let full = join(p@, b, key);
        lemma_join(p@, b, key);
        assert(path_ok(Node::Sub(p, ch), full));
    }
}

/// A well-formed node other than the empty one holds some key.
pub proof fn lemma_nonempty<V>(n: Node<V>) -> (key: Seq<u8>)
    requires
        node_wf(n),
        !(n is Empty),
    ensures
        lookup(n, key) is Some,
    decreases n,
{
    match n {
        Node::Empty => Seq::empty(),
        Node::Leaf(k, v) => k@,
        Node::Sub(p, ch) => {
            assert(path_ok(n, Seq::empty()));
            let b = ch@.dom().choose();
            assert(ch@.dom().len() >= 2);
            ch.lemma_key_seq();
            vstd::set::axiom_set_choose_len(ch@.dom());
            assert(ch@.dom().contains(b));
            lemma_child_wf(p, ch, b);
            ch.lemma_value_smaller(b);
            let rest = lemma_nonempty(ch@[b]);
            lemma_lookup_join(p, ch, b, rest);
            join(p@, b, rest)
        },
    }
}

/// No key held by `n`, other than `key` itself, is a prefix of `key` or has `key` as
/// a prefix.
pub open spec fn prefix_free_with<V>(n: Node<V>, key: Seq<u8>) -> bool {
    forall|k: Seq<u8>| #[trigger] lookup(n, k) is Some && k != key ==> !is_prefix(k, key) && !is_prefix(key, k)
}

/// A branch whose shared bytes are `q`, `c` and `p2` looks, below `q` and `c`, like a
/// branch whose shared bytes are `p2`.
pub proof fn lemma_shift<V>(pv: Vec<u8>, p2v: Vec<u8>, q: Seq<u8>, c: u8, ch: ArrayMap<Node<V>>, k: Seq<u8>)
    requires
        pv@ == join(q, c, p2v@),
    ensures
        lookup(Node::Sub(pv, ch), k) == if q.len() < k.len() && k.take(q.len() as int) == q && k[q.len() as int] == c {
            lookup(Node::Sub(p2v, ch), k.skip(q.len() + 1int))
        } else {
            None
        },
        path_ok(Node::Sub(pv, ch), k) == if q.len() < k.len() && k.take(q.len() as int) == q && k[q.len() as int] == c {
            path_ok(Node::Sub(p2v, ch), k.skip(q.len() + 1int))
        } else {
            path_ok(Node::Sub(p2v, ch), Seq::empty())
        },
{
    let p = pv@;
    let p2 = p2v@;
    lemma_join(q, c, p2);
    if q.len() < k.len() && k.take(q.len() as int) == q && k[q.len() as int] == c {
        let r = k.skip(q.len() + 1int);
        lemma_split(q, k);
        assert(k == join(q, c, r));
        // k starts with p exactly when r starts with p2
        if p.len() < k.len() && k.take(p.len() as int) == p {
            assert(r.take(p2.len() as int) =~= k.take(p.len() as int).skip(q.len() + 1int));
            assert(p.skip(q.len() + 1int) =~= p2);
            assert(r[p2.len() as int] == k[p.len() as int]);
            assert(r.skip(p2.len() + 1int) =~= k.skip(p.len() + 1int));
        }
        if p2.len() < r.len() && r.take(p2.len() as int) == p2 {
            assert(k.take(p.len() as int) =~= join(q, c, r.take(p2.len() as int)));
            assert(r[p2.len() as int] == k[p.len() as int]);
            assert(r.skip(p2.len() + 1int) =~= k.skip(p.len() + 1int));
        }
    } else {
        if p.len() < k.len() && k.take(p.len() as int) == p {
            assert(k.take(q.len() as int) =~= k.take(p.len() as int).take(q.len() as int));
            assert(k[q.len() as int] == k.take(p.len() as int)[q.len() as int]);
        }
    }
}

/// The depth bound of a branch whose shared bytes are `q`, `c` and `p2`, below `q`
/// and `c`, is that of a branch whose shared bytes are `p2`.
pub proof fn lemma_shift_bounded<V>(pv: Vec<u8>, p2v: Vec<u8>, q: Seq<u8>, c: u8, ch: ArrayMap<Node<V>>, k: Seq<u8>, h: nat)
    requires
        pv@ == join(q, c, p2v@),
    ensures
        bounded(Node::Sub(pv, ch), k, h) == if q.len() < k.len() && k.take(q.len() as int) == q && k[q.len() as int] == c {
            bounded(Node::Sub(p2v, ch), k.skip(q.len() + 1int), h)
        } else {
            h > 0
        },
{
    let p = pv@;
    let p2 = p2v@;
    lemma_join(q, c, p2);
    if q.len() < k.len() && k.take(q.len() as int) == q && k[q.len() as int] == c {
        let r = k.skip(q.len() + 1int);
        lemma_split(q, k);
        if p.len() < k.len() && k.take(p.len() as int) == p {
            assert(r.take(p2.len() as int) =~= k.take(p.len() as int).skip(q.len() + 1int));
            assert(p.skip(q.len() + 1int) =~= p2);
            assert(r[p2.len() as int] == k[p.len() as int]);
            assert(r.skip(p2.len() + 1int) =~= k.skip(p.len() + 1int));
        }
        if p2.len() < r.len() && r.take(p2.len() as int) == p2 {
            assert(k.take(p.len() as int) =~= join(q, c, r.take(p2.len() as int)));
            assert(r[p2.len() as int] == k[p.len() as int]);
            assert(r.skip(p2.len() + 1int) =~= k.skip(p.len() + 1int));
        }
    } else {
        if p.len() < k.len() && k.take(p.len() as int) == p {
            assert(k.take(q.len() as int) =~= k.take(p.len() as int).take(q.len() as int));
            assert(k[q.len() as int] == k.take(p.len() as int)[q.len() as int]);
        }
    }
}

/// Shared bytes in front of a branch do not change its depth.
pub proof fn lemma_shift_height<V>(pv: Vec<u8>, p2v: Vec<u8>, q: Seq<u8>, c: u8, ch: ArrayMap<Node<V>>, h: nat)
    requires
        pv@ == join(q, c, p2v@),
    ensures
        height_le(Node::Sub(pv, ch), h) == height_le(Node::Sub(p2v, ch), h),
{
    if height_le(Node::Sub(p2v, ch), h) {
        assert(bounded(Node::Sub(p2v, ch), Seq::empty(), h));
        assert forall|k: Seq<u8>| #[trigger] bounded(Node::Sub(pv, ch), k, h) by {
            lemma_shift_bounded(pv, p2v, q, c, ch, k, h);
        }
    }
    if height_le(Node::Sub(pv, ch), h) {
        assert forall|r: Seq<u8>| #[trigger] bounded(Node::Sub(p2v, ch), r, h) by {
            let k = join(q, c, r);
            lemma_join(q, c, r);
            lemma_shift_bounded(pv, p2v, q, c, ch, k, h);
        }
    }
}

/// A branch with more shared bytes in front is well-formed when the branch without
/// them is.
pub proof fn lemma_shift_wf<V>(pv: Vec<u8>, p2v: Vec<u8>, q: Seq<u8>, c: u8, ch: ArrayMap<Node<V>>)
    requires
        pv@ == join(q, c, p2v@),
    ensures
        node_wf(Node::Sub(pv, ch)) == node_wf(Node::Sub(p2v, ch)),
{
    if node_wf(Node::Sub(p2v, ch)) {
        assert forall|k: Seq<u8>| #[trigger] path_ok(Node::Sub(pv, ch), k) by {
            lemma_shift(pv, p2v, q, c, ch, k);
        }
    }
    if node_wf(Node::Sub(pv, ch)) {
        assert forall|r: Seq<u8>| #[trigger] path_ok(Node::Sub(p2v, ch), r) by {
            let k = join(q, c, r);
            lemma_join(q, c, r);
            lemma_shift(pv, p2v, q, c, ch, k);
        }
    }
}

/// Branch facts about a well-formed branch.
pub proof fn lemma_sub_wf<V>(p: Vec<u8>, ch: ArrayMap<Node<V>>)
    requires
        node_wf(Node::Sub(p, ch)),
    ensures
        ch.wf(),
        ch@.dom().len() >= 2,
        ch@.dom().finite(),
        forall|b: u8| #[trigger] ch@.contains_key(b) ==> !(ch@[b] is Empty) && node_wf(ch@[b]),
{
    assert(path_ok(Node::Sub(p, ch), Seq::empty()));
    ch.lemma_key_seq();
    assert forall|b: u8| #[trigger] ch@.contains_key(b) implies !(ch@[b] is Empty) && node_wf(ch@[b]) by {
        lemma_child_wf(p, ch, b);
    }
}

/// A branch built from a well-formed child map with at least two children, none
/// empty, is well-formed.
pub proof fn lemma_make_sub_wf<V>(p: Vec<u8>, ch: ArrayMap<Node<V>>)
    requires
        ch.wf(),
        ch@.dom().len() >= 2,
        forall|b: u8| #[trigger] ch@.contains_key(b) ==> !(ch@[b] is Empty) && node_wf(ch@[b]),
    ensures
        node_wf(Node::Sub(p, ch)),
{
    assert forall|k: Seq<u8>| #[trigger] path_ok(Node::Sub(p, ch), k) by {
        if p@.len() < k.len() && k.take(p@.len() as int) == p@ && ch@.contains_key(k[p@.len() as int]) {
            assert(node_wf(ch@[k[p@.len() as int]]));
            assert(path_ok(ch@[k[p@.len() as int]], k.skip(p@.len() + 1int)));
        }
    }
}

/// Every key that a well-formed branch holds continues its shared bytes.
pub proof fn lemma_sub_keys<V>(p: Vec<u8>, ch: ArrayMap<Node<V>>, k: Seq<u8>)
    requires
        lookup(Node::Sub(p, ch), k) is Some,
    ensures
        p@.len() < k.len(),
        k.take(p@.len() as int) == p@,
        ch@.contains_key(k[p@.len() as int]),
        lookup(ch@[k[p@.len() as int]], k.skip(p@.len() + 1int)) is Some,
{
}

impl<V> Node<V> {
    /// The value at `key`.
    pub fn get(&self, key: &[u8]) -> (r: Option<&V>)
        ensures
            r == match lookup(*self, key@) {
                Some(v) => Some(&v),
                None => None::<&V>,
            },
        decreases key@.len(),
    {
        match self {
            Node::Empty => None,
            Node::Leaf(k, v) => {
                if crate::seqs::bytes_eq(k.as_slice(), key) {
                    Some(v)
                } else {
                    None
                }
            },
            Node::Sub(p, ch) => {
                let pl = p.len();
                if pl < key.len() && crate::seqs::bytes_eq(p.as_slice(), vstd::slice::slice_subrange(key, 0, pl)) {
                    proof {
                        assert(key@.subrange(0, pl as int) =~= key@.take(pl as int));
                    }
                    match ch.get(key[pl]) {
                        Some(c) => {
                            let rest = vstd::slice::slice_subrange(key, pl + 1, key.len());
                            proof {
                                assert(rest@ =~= key@.skip(pl + 1int));
                            }
                            c.get(rest)
                        },
                        None => None,
                    }
                } else {
                    proof {
                        if pl < key@.len() {
                            assert(key@.subrange(0, pl as int) =~= key@.take(pl as int));
                        }
                    }
                    None
                }
            },
        }
    }
}

/// What a lookup gives after inserting `v` at `key`.
pub open spec fn after_put<V>(before: Option<V>, k: Seq<u8>, key: Seq<u8>, v: V) -> Option<V> {
    if k == key {
        Some(v)
    } else {
        before
    }
}

impl<V> Node<V> {
    /// Whether the node holds nothing.
    pub fn is_empty(&self) -> (r: bool)
        ensures
            r == (*self is Empty),
    {
        match self {
            Node::Empty => true,
            _ => false,
        }
    }

    /// A branch with shared bytes `common` and the two children `na` and `nb` under the
    /// different bytes `a` and `b`.
    pub fn from_pair(common: &[u8], a: u8, b: u8, na: Node<V>, nb: Node<V>) -> (r: Node<V>)
        requires
            a != b,
            node_wf(na),
            node_wf(nb),
            !(na is Empty),
            !(nb is Empty),
        ensures
            node_wf(r),
            forall|k: Seq<u8>| #[trigger] lookup(r, k) == if common@.len() < k.len() && k.take(common@.len() as int) == common@ {
                if k[common@.len() as int] == a {
                    lookup(na, k.skip(common@.len() + 1int))
                } else if k[common@.len() as int] == b {
                    lookup(nb, k.skip(common@.len() + 1int))
                } else {
                    None
                }
            } else {
                None
            },
            forall|h: nat| height_le(na, h) && height_le(nb, h) ==> #[trigger] height_le(r, h + 1),
    {
        let mut ch = ArrayMap::new();
        ch.insert(a, na);
        ch.insert(b, nb);
        proof {
            use_type_invariant(&ch);
            ch.lemma_key_seq();
            assert(ch@.dom() =~= set![a, b]);
            assert(set![a, b].len() == 2) by {
                assert(set![a, b] =~= set![a].insert(b));
            }
        }
        let cv = vstd::slice::slice_to_vec(common);
        proof {
            lemma_make_sub_wf(cv, ch);
            assert forall|h: nat| height_le(na, h) && height_le(nb, h) implies #[trigger] height_le(Node::Sub(cv, ch), h + 1) by {
                lemma_height_make(cv, ch, h + 1);
            }
        }
        Node::Sub(cv, ch)
    }
}

/// What a lookup gives after an insertion that replaces existing values only where
/// `replace` is set.
pub open spec fn lookup_put_or_keep<V>(n: Node<V>, k: Seq<u8>, key: Seq<u8>, v: V, replace: bool) -> Option<V> {
    if lookup(n, key) is Some && !replace {
        lookup(n, k)
    } else {
        after_put(lookup(n, k), k, key, v)
    }
}

/// A common prefix keeps the prefix relation.
pub proof fn lemma_join_prefix(p: Seq<u8>, b: u8, x: Seq<u8>, y: Seq<u8>)
    ensures
        is_prefix(join(p, b, x), join(p, b, y)) == is_prefix(x, y),
{
    lemma_join(p, b, x);
    lemma_join(p, b, y);
    if is_prefix(x, y) {
        assert(join(p, b, y).take(join(p, b, x).len() as int) =~= join(p, b, y.take(x.len() as int)));
    }
    if is_prefix(join(p, b, x), join(p, b, y)) {
        assert(y.take(x.len() as int) =~= join(p, b, y).take(join(p, b, x).len() as int).skip(p.len() + 1int));
        assert(x =~= join(p, b, x).skip(p.len() + 1int));
    }
}

/// What a branch holds at a joined key, for any node that is a branch.
pub proof fn lemma_lookup_join_old<V>(n: Node<V>, b: u8, rest: Seq<u8>)
    requires
        n is Sub,
    ensures
        lookup(n, join(n->Sub_0@, b, rest)) == if n->Sub_1@.contains_key(b) {
            lookup(n->Sub_1@[b], rest)
        } else {
            None
        },
{
    lemma_join(n->Sub_0@, b, rest);
}

impl<V> Node<V> {
    /// Set the value at `key` (which no other key of the trie is a prefix of, or has as
    /// a prefix). An existing value is replaced only where `replace` is set; what comes
    /// back is the replaced value, or `v` itself where it was not put in.
    pub fn insert(self, key: &[u8], v: V, replace: bool) -> (r: (Node<V>, Option<V>))
        requires
            node_wf(self),
            prefix_free_with(self, key@),
        ensures
            node_wf(r.0),
            forall|k: Seq<u8>| #[trigger] lookup(r.0, k) == lookup_put_or_keep(self, k, key@, v, replace),
            r.1 == if lookup(self, key@) is Some && !replace {
                Some(v)
            } else {
                lookup(self, key@)
            },
            forall|h: nat| height_le(self, h) ==> #[trigger] height_le(r.0, h + 1),
        decreases key@.len(),
    {
        match self {
            Node::Empty => {
                let r = Node::Leaf(vstd::slice::slice_to_vec(key), v);
                proof {
                    assert forall|k: Seq<u8>| #[trigger] path_ok(r, k) by {}
                    assert forall|h: nat| height_le(self, h) implies #[trigger] height_le(r, h + 1) by {
                        lemma_height_flat(r);
                        lemma_height_mono(r, 0, h + 1);
                    }
                }
                (r, None)
            },
            Node::Leaf(k0, v0) => {
                if crate::seqs::bytes_eq(k0.as_slice(), key) {
                    if replace {
                        let r = Node::Leaf(k0, v);
                        proof {
                            assert forall|k: Seq<u8>| #[trigger] path_ok(r, k) by {}
                            assert forall|h: nat| height_le(self, h) implies #[trigger] height_le(r, h + 1) by {
                                lemma_height_flat(r);
                                lemma_height_mono(r, 0, h + 1);
                            }
                        }
                        (r, Some(v0))
                    } else {
                        let r = Node::Leaf(k0, v0);
                        proof {
                            assert forall|h: nat| height_le(self, h) implies #[trigger] height_le(r, h + 1) by {
                                lemma_height_flat(r);
                                lemma_height_mono(r, 0, h + 1);
                            }
                        }
                        (r, Some(v))
                    }
                } else {
                    let ghost kk = k0@;
                    proof {
                        assert(lookup(self, kk) is Some);
                    }
                    let n = match common_length(k0.as_slice(), key) {
                        Ok(n) => n,
                        Err(_) => {
                            proof {
                                assert(false);
                            }
                            return (Node::Leaf(k0, v0), None);
                        },
                    };
                    let common = vstd::slice::slice_subrange(key, 0, n);
                    let ra = vstd::slice::slice_subrange(k0.as_slice(), n + 1, k0.len());
                    let rb = vstd::slice::slice_subrange(key, n + 1, key.len());
                    let a = k0[n];
                    let b = key[n];
                    let na = Node::Leaf(vstd::slice::slice_to_vec(ra), v0);
                    let nb = Node::Leaf(vstd::slice::slice_to_vec(rb), v);
                    proof {
                        assert forall|k: Seq<u8>| #[trigger] path_ok(na, k) by {}
                        assert forall|k: Seq<u8>| #[trigger] path_ok(nb, k) by {}
                    }
                    let r = Node::from_pair(common, a, b, na, nb);
                    proof {
                        lemma_height_flat(na);
                        lemma_height_flat(nb);
                        assert forall|h: nat| height_le(self, h) implies #[trigger] height_le(r, h + 1) by {
                            lemma_height_mono(na, 0, h);
                            lemma_height_mono(nb, 0, h);
                        }
                        assert(common@ =~= key@.take(n as int));
                        assert(kk.take(n as int) == common@);
                        lemma_split(common@, kk);
                        lemma_split(common@, key@);
                        assert(ra@ =~= kk.skip(n + 1int));
                        assert(rb@ =~= key@.skip(n + 1int));
                        assert forall|k: Seq<u8>| #[trigger] lookup(r, k) == lookup_put_or_keep(self, k, key@, v, replace) by {
                            if common@.len() < k.len() && k.take(common@.len() as int) == common@ {
                                lemma_split(common@, k);
                            }
                        }
                    }
                    (r, None)
                }
            },
            Node::Sub(p, ch) => {
                let ghost old_ch = ch@;
                let ghost old_chm = ch;
                proof {
                    lemma_sub_wf(p, ch);
                }
                let pl = p.len();
                let starts = pl <= key.len() && crate::seqs::bytes_eq(p.as_slice(), vstd::slice::slice_subrange(key, 0, pl));
                proof {
                    if pl <= key@.len() {
                        assert(key@.subrange(0, pl as int) =~= key@.take(pl as int));
                    }
                    assert(starts == is_prefix(p@, key@));
                }
                if starts {
                    if pl == key.len() {
                        proof {
                            let b = ch@.dom().choose();
                            vstd::set::axiom_set_choose_len(ch@.dom());
                            let rest = lemma_nonempty(ch@[b]);
                            lemma_lookup_join(p, ch, b, rest);
                            lemma_join(p@, b, rest);
                            assert(key@ =~= p@);
                            assert(join(p@, b, rest).take(p@.len() as int) == p@);
                            assert(is_prefix(key@, join(p@, b, rest)));
                            assert(lookup(self, join(p@, b, rest)) is Some);
                            assert(false);
                        }
                        return (Node::Sub(p, ch), None);
                    }
                    let b = key[pl];
                    let rest = vstd::slice::slice_subrange(key, pl + 1, key.len());
                    proof {
                        assert(rest@ =~= key@.skip(pl + 1int));
                        lemma_split(p@, key@);
                    }
                    let mut ch = ch;
                    let child = match ch.remove(b) {
                        Some(c) => c,
                        None => Node::Empty,
                    };
                    let ghost old_child = child;
                    proof {
                        if old_ch.contains_key(b) {
                            assert(node_wf(child));
                        } else {
                            assert forall|k: Seq<u8>| #[trigger] path_ok(child, k) by {}
                        }
                        assert forall|k: Seq<u8>| #[trigger] lookup(child, k) is Some && k != rest@ implies
                            !is_prefix(k, rest@) && !is_prefix(rest@, k) by {
                            assert(old_ch.contains_key(b));
                            lemma_lookup_join_old(self, b, k);
                            lemma_join_prefix(p@, b, k, rest@);
                            lemma_join_prefix(p@, b, rest@, k);
                            assert(join(p@, b, k) != key@) by {
                                lemma_join(p@, b, k);
                            }
                        }
                    }
                    let (c2, res) = child.insert(rest, v, replace);
                    ch.insert(b, c2);
                    proof {
                        use_type_invariant(&ch);
                        ch.lemma_key_seq();
                    }
                    let ghost chg = ch;
                    let r = Node::Sub(p, ch);
                    proof {
                        assert forall|h: nat| height_le(self, h) implies #[trigger] height_le(r, h + 1) by {
                            assert(bounded(self, Seq::empty(), h));
                            assert forall|x: u8| #[trigger] chg@.contains_key(x) implies height_le(chg@[x], h) by {
                                if x == b {
                                    if old_ch.contains_key(b) {
                                        lemma_height_child(p, old_chm, h, b);
                                        assert(height_le(c2, ((h - 1) as nat) + 1));
                                    } else {
                                        lemma_height_flat(old_child);
                                        assert(height_le(c2, 0 + 1));
                                        lemma_height_mono(c2, 1, h);
                                    }
                                } else {
                                    lemma_height_child(p, old_chm, h, x);
                                    lemma_height_mono(chg@[x], (h - 1) as nat, h);
                                }
                            }
                            lemma_height_make(p, chg, h + 1);
                        }
                    }
                    proof {
                        let ch = chg;
                        assert(lookup(c2, rest@) is Some);
                        assert(!(c2 is Empty));
                        if old_ch.contains_key(b) {
                            assert(ch@.dom() =~= old_ch.dom());
                        } else {
                            assert(ch@.dom() =~= old_ch.dom().insert(b));
                        }
                        lemma_make_sub_wf(p, ch);
                        assert forall|k: Seq<u8>| #[trigger] lookup(r, k) == lookup_put_or_keep(self, k, key@, v, replace) by {
                            if p@.len() < k.len() && k.take(p@.len() as int) == p@ {
                                lemma_split(p@, k);
                                let bk = k[p@.len() as int];
                                let rk = k.skip(p@.len() + 1int);
                                lemma_lookup_join(p, ch, bk, rk);
                                lemma_lookup_join_old(self, bk, rk);
                                if bk == b {
                                    if rk == rest@ {
                                        assert(k == key@);
                                    } else {
                                        assert(k != key@) by {
                                            lemma_join(p@, b, rk);
                                        }
                                    }
                                } else {
                                    assert(k != key@) by {
                                        lemma_join(p@, bk, rk);
                                    }
                                }
                            } else {
                                assert(k != key@);
                            }
                        }
                    }
                    (r, res)
                } else {
                    let n = match common_length(key, p.as_slice()) {
                        Ok(n) => n,
                        Err(_) => {
                            proof {
                                let b = ch@.dom().choose();
                                vstd::set::axiom_set_choose_len(ch@.dom());
                                let rest = lemma_nonempty(ch@[b]);
                                lemma_lookup_join(p, ch, b, rest);
                                lemma_join(p@, b, rest);
                                let full = join(p@, b, rest);
                                assert(is_prefix(key@, p@));
                                assert(full.take(key@.len() as int) =~= p@.take(key@.len() as int));
                                assert(is_prefix(key@, full));
                                assert(lookup(self, full) is Some);
                                assert(full != key@);
                                assert(false);
                            }
                            return (Node::Sub(p, ch), None);
                        },
                    };
                    let common = vstd::slice::slice_subrange(key, 0, n);
                    let a = p[n];
                    let bb = key[n];
                    let p2 = vstd::slice::slice_to_vec(vstd::slice::slice_subrange(p.as_slice(), n + 1, p.len()));
                    let rb = vstd::slice::slice_subrange(key, n + 1, key.len());
                    proof {
                        assert(common@ =~= key@.take(n as int));
                        assert(p@.take(n as int) == common@);
                        lemma_split(common@, p@);
                        lemma_split(common@, key@);
                        assert(p2@ =~= p@.skip(n + 1int));
                        assert(rb@ =~= key@.skip(n + 1int));
                        lemma_shift_wf(p, p2, common@, a, ch);
                    }
                    let ghost pv = p;
                    let ghost chg = ch;
                    let na = Node::Sub(p2, ch);
                    let nb = Node::Leaf(vstd::slice::slice_to_vec(rb), v);
                    proof {
                        assert forall|k: Seq<u8>| #[trigger] path_ok(nb, k) by {}
                    }
                    let r = Node::from_pair(common, a, bb, na, nb);
                    proof {
                        lemma_height_flat(nb);
                        assert forall|h: nat| height_le(self, h) implies #[trigger] height_le(r, h + 1) by {
                            lemma_shift_height(pv, p2, common@, a, chg, h);
                            lemma_height_mono(nb, 0, h);
                        }
                        assert(lookup(self, key@) is None) by {
                            if lookup(self, key@) is Some {
                                lemma_sub_keys(pv, chg, key@);
                            }
                        }
                        assert forall|k: Seq<u8>| #[trigger] lookup(r, k) == lookup_put_or_keep(self, k, key@, v, replace) by {
                            lemma_shift(pv, p2, common@, a, chg, k);
                            if common@.len() < k.len() && k.take(common@.len() as int) == common@ {
                                lemma_split(common@, k);
                            }
                        }
                    }
                    (r, None)
                }
            },
        }
    }
}

/// What a lookup gives after removing `key`.
pub open spec fn after_drop<V>(before: Option<V>, k: Seq<u8>, key: Seq<u8>) -> Option<V> {
    if k == key {
        None
    } else {
        before
    }
}

impl<V> Node<V> {
    /// The node that a branch with shared bytes `p` and children `ch` becomes: itself
    /// while it has two children or more, its only child (with `p` and the child's byte
    /// put in front) when it has one, nothing when it has none.
    pub fn collapse(p: Vec<u8>, ch: ArrayMap<Node<V>>) -> (r: Node<V>)
        requires
            forall|b: u8| #[trigger] ch@.contains_key(b) ==> !(ch@[b] is Empty) && node_wf(ch@[b]),
        ensures
            node_wf(r),
            forall|k: Seq<u8>| #[trigger] lookup(r, k) == lookup(Node::Sub(p, ch), k),
            forall|h: nat| height_le(Node::Sub(p, ch), h) ==> #[trigger] height_le(r, h),
    {
        proof {
            use_type_invariant(&ch);
            ch.lemma_key_seq();
        }
        let ghost pv = p;
        let ghost chg = ch;
        if ch.len() >= 2 {
            proof {
                lemma_make_sub_wf(p, ch);
            }
            return Node::Sub(p, ch);
        }
        let mut ch = ch;
        match ch.pop_first() {
            None => {
                proof {
                    assert forall|k: Seq<u8>| #[trigger] lookup(Node::<V>::Empty, k) == lookup(Node::Sub(pv, chg), k) by {}
                    assert forall|k: Seq<u8>| #[trigger] path_ok(Node::<V>::Empty, k) by {}
                    assert forall|h: nat| height_le(Node::Sub(pv, chg), h) implies #[trigger] height_le(Node::<V>::Empty, h) by {
                        lemma_height_flat(Node::<V>::Empty);
                        lemma_height_mono(Node::<V>::Empty, 0, h);
                    }
                }
                Node::Empty
            },
            Some((b, child)) => {
                proof {
                    assert(chg@.dom().len() == 1);
                    assert forall|x: u8| chg@.contains_key(x) implies x == b by {
                        if x != b {
                            assert(chg@.dom().remove(b).contains(x));
                            assert(chg@.dom().remove(b).len() == 0);
                        }
                    }
                }
                match child {
                    Node::Leaf(k0, v0) => {
                        let mut key = p;
                        key.push(b);
                        let mut k0 = k0;
                        let ghost r0 = k0@;
                        key.append(&mut k0);
                        let r = Node::Leaf(key, v0);
                        proof {
                            assert forall|h: nat| height_le(Node::Sub(pv, chg), h) implies #[trigger] height_le(r, h) by {
                                lemma_height_flat(r);
                                lemma_height_mono(r, 0, h);
                            }
                            assert(key@ =~= join(pv@, b, r0));
                            assert forall|k: Seq<u8>| #[trigger] path_ok(r, k) by {}
                            assert forall|k: Seq<u8>| #[trigger] lookup(r, k) == lookup(Node::Sub(pv, chg), k) by {
                                lemma_join(pv@, b, r0);
                                lemma_lookup_join(pv, chg, b, r0);
                                if pv@.len() < k.len() && k.take(pv@.len() as int) == pv@ {
                                    lemma_split(pv@, k);
                                    let bk = k[pv@.len() as int];
                                    let rk = k.skip(pv@.len() + 1int);
                                    lemma_lookup_join(pv, chg, bk, rk);
                                    if bk == b && rk == r0 {
                                        assert(k == key@);
                                    } else {
                                        assert(k != key@) by {
                                            lemma_join(pv@, bk, rk);
                                        }
                                    }
                                } else {
                                    assert(k != key@);
                                }
                            }
                        }
                        r
                    },
                    Node::Sub(p2, ch2) => {
                        let ghost p2g = p2;
                        let mut np = p;
                        np.push(b);
                        let mut p2 = p2;
                        np.append(&mut p2);
                        proof {
                            assert(np@ =~= join(pv@, b, p2g@));
                            lemma_shift_wf(np, p2g, pv@, b, ch2);
                            assert forall|h: nat| height_le(Node::Sub(pv, chg), h) implies #[trigger] height_le(Node::Sub(np, ch2), h) by {
                                lemma_height_child(pv, chg, h, b);
                                lemma_shift_height(np, p2g, pv@, b, ch2, (h - 1) as nat);
                                lemma_height_mono(Node::Sub(np, ch2), (h - 1) as nat, h);
                            }
                            assert forall|k: Seq<u8>| #[trigger] lookup(Node::Sub(np, ch2), k) == lookup(Node::Sub(pv, chg), k) by {
                                lemma_shift(np, p2g, pv@, b, ch2, k);
                                if pv@.len() < k.len() && k.take(pv@.len() as int) == pv@ {
                                    lemma_split(pv@, k);
                                }
                            }
                        }
                        Node::Sub(np, ch2)
                    },
                    Node::Empty => {
                        proof {
                            assert(false);
                        }
                        Node::Empty
                    },
                }
            },
        }
    }

    /// Remove `key`, giving back its value; a branch left with one child is merged
    /// into it.
    pub fn remove(self, key: &[u8]) -> (r: (Node<V>, Option<V>))
        requires
            node_wf(self),
        ensures
            node_wf(r.0),
            forall|k: Seq<u8>| #[trigger] lookup(r.0, k) == after_drop(lookup(self, k), k, key@),
            r.1 == lookup(self, key@),
            forall|h: nat| height_le(self, h) ==> #[trigger] height_le(r.0, h),
        decreases key@.len(),
    {
        match self {
            Node::Leaf(k0, v0) => {
                if crate::seqs::bytes_eq(k0.as_slice(), key) {
                    proof {
                        assert forall|k: Seq<u8>| #[trigger] path_ok(Node::<V>::Empty, k) by {}
                        assert forall|h: nat| height_le(self, h) implies #[trigger] height_le(Node::<V>::Empty, h) by {
                            lemma_height_flat(Node::<V>::Empty);
                            lemma_height_mono(Node::<V>::Empty, 0, h);
                        }
                    }
                    (Node::Empty, Some(v0))
                } else {
                    (Node::Leaf(k0, v0), None)
                }
            },
            Node::Empty => (Node::Empty, None),
            Node::Sub(p, ch) => {
                let ghost old_ch = ch@;
                let ghost old_chm = ch;
                proof {
                    lemma_sub_wf(p, ch);
                }
                let pl = p.len();
                let starts = pl < key.len() && crate::seqs::bytes_eq(p.as_slice(), vstd::slice::slice_subrange(key, 0, pl));
                proof {
                    if pl < key@.len() {
                        assert(key@.subrange(0, pl as int) =~= key@.take(pl as int));
                    }
                }
                if !starts {
                    return (Node::Sub(p, ch), None);
                }
                let b = key[pl];
                if !ch.contains(b) {
                    return (Node::Sub(p, ch), None);
                }
                let rest = vstd::slice::slice_subrange(key, pl + 1, key.len());
                proof {
                    assert(rest@ =~= key@.skip(pl + 1int));
                    lemma_split(p@, key@);
                }
                let mut ch = ch;
                let child = match ch.remove(b) {
                    Some(c) => c,
                    None => {
                        proof {
                            assert(false);
                        }
                        Node::Empty
                    },
                };
                let (c2, res) = child.remove(rest);
                if !c2.is_empty() {
                    ch.insert(b, c2);
                }
                proof {
                    use_type_invariant(&ch);
                }
                let ghost pv = p;
                let ghost chg = ch;
                let r = Node::collapse(p, ch);
                proof {
                    assert forall|h: nat| height_le(self, h) implies #[trigger] height_le(r, h) by {
                        assert(bounded(self, Seq::empty(), h));
                        assert forall|x: u8| #[trigger] chg@.contains_key(x) implies height_le(chg@[x], (h - 1) as nat) by {
                            lemma_height_child(pv, old_chm, h, x);
                            if x == b {
                                assert(height_le(c2, (h - 1) as nat));
                            }
                        }
                        lemma_height_make(pv, chg, h);
                    }
                    assert forall|k: Seq<u8>| #[trigger] lookup(r, k) == after_drop(lookup(self, k), k, key@) by {
                        assert(lookup(r, k) == lookup(Node::Sub(pv, chg), k));
                        if pv@.len() < k.len() && k.take(pv@.len() as int) == pv@ {
                            lemma_split(pv@, k);
                            let bk = k[pv@.len() as int];
                            let rk = k.skip(pv@.len() + 1int);
                            lemma_lookup_join(pv, chg, bk, rk);
                            lemma_lookup_join_old(self, bk, rk);
                            if bk == b {
                                if rk != rest@ {
                                    assert(k != key@) by {
                                        lemma_join(pv@, b, rk);
                                    }
                                }
                            } else {
                                assert(k != key@) by {
                                    lemma_join(pv@, bk, rk);
                                }
                            }
                        }
                    }
                }
                (r, res)
            },
        }
    }
}

/// Two tries have the same shape, down to depth `h`: the same shared bytes and the
/// same children under the same bytes, down to the same leaves.
pub open spec fn same_trie<V>(a: Node<V>, b: Node<V>, h: nat) -> bool
    decreases h,
{
    match a {
        Node::Empty => b is Empty,
        Node::Leaf(ka, va) => match b {
            Node::Leaf(kb, vb) => ka@ == kb@ && va == vb,
            _ => false,
        },
        Node::Sub(pa, cha) => match b {
            Node::Sub(pb, chb) => h > 0 && pa@ == pb@ && cha@.dom() == chb@.dom() && forall|c: u8|
                #[trigger] cha@.contains_key(c) ==> same_trie(cha@[c], chb@[c], (h - 1) as nat),
            _ => false,
        },
    }
}

/// A well-formed branch holds two keys that part right after its shared bytes.
proof fn lemma_two_keys<V>(p: Vec<u8>, ch: ArrayMap<Node<V>>) -> (r: (Seq<u8>, Seq<u8>))
    requires
        node_wf(Node::Sub(p, ch)),
    ensures
        lookup(Node::Sub(p, ch), r.0) is Some,
        lookup(Node::Sub(p, ch), r.1) is Some,
        p@.len() < r.0.len(),
        p@.len() < r.1.len(),
        r.0[p@.len() as int] != r.1[p@.len() as int],
{
    lemma_sub_wf(p, ch);
    let dom = ch@.dom();
    let c1 = dom.choose();
    vstd::set::axiom_set_choose_len(dom);
    let rest = dom.remove(c1);
    assert(rest.len() >= 1);
    vstd::set::axiom_set_choose_len(rest);
    let c2 = rest.choose();
    lemma_child_wf(p, ch, c1);
    lemma_child_wf(p, ch, c2);
    let r1 = lemma_nonempty(ch@[c1]);
    let r2 = lemma_nonempty(ch@[c2]);
    lemma_lookup_join(p, ch, c1, r1);
    lemma_lookup_join(p, ch, c2, r2);
    lemma_join(p@, c1, r1);
    lemma_join(p@, c2, r2);
    (join(p@, c1, r1), join(p@, c2, r2))
}

/// The shape of a radix trie is a function of its entries: two well-formed tries at
/// most `h` deep holding the same entries have the same shape.
pub proof fn lemma_trie_canonical<V>(a: Node<V>, b: Node<V>, h: nat)
    requires
        node_wf(a),
        node_wf(b),
        height_le(a, h),
        height_le(b, h),
        forall|k: Seq<u8>| #[trigger] lookup(a, k) == lookup(b, k),
    ensures
        same_trie(a, b, h),
    decreases h,
{
    match a {
        Node::Empty => {
            if !(b is Empty) {
                let k = lemma_nonempty(b);
                assert(lookup(a, k) is None);
            }
        },
        Node::Leaf(ka, va) => {
            assert(lookup(a, ka@) is Some);
            match b {
                Node::Empty => {},
                Node::Leaf(kb, vb) => {
                    assert(lookup(b, ka@) is Some);
                },
                Node::Sub(pb, chb) => {
                    let (x, y) = lemma_two_keys(pb, chb);
                    assert(lookup(a, x) is Some);
                    assert(lookup(a, y) is Some);
                },
            }
        },
        Node::Sub(pa, cha) => {
            match b {
                Node::Empty => {
                    let k = lemma_nonempty(a);
                    assert(lookup(b, k) is None);
                },
                Node::Leaf(kb, vb) => {
                    let (x, y) = lemma_two_keys(pa, cha);
                    assert(lookup(b, x) is Some);
                    assert(lookup(b, y) is Some);
                },
                Node::Sub(pb, chb) => {
                    assert(bounded(a, Seq::empty(), h));
                    let (x1, x2) = lemma_two_keys(pa, cha);
                    let (y1, y2) = lemma_two_keys(pb, chb);
                    assert(lookup(b, x1) is Some && lookup(b, x2) is Some);
                    assert(lookup(a, y1) is Some && lookup(a, y2) is Some);
                    lemma_sub_keys(pb, chb, x1);
                    lemma_sub_keys(pb, chb, x2);
                    lemma_sub_keys(pa, cha, y1);
                    lemma_sub_keys(pa, cha, y2);
                    lemma_sub_keys(pa, cha, x1);
                    lemma_sub_keys(pb, chb, y1);
                    assert(pa@.len() == pb@.len()) by {
                        if pa@.len() < pb@.len() {
                            assert(x1[pa@.len() as int] == x1.take(pb@.len() as int)[pa@.len() as int]);
                            assert(x2[pa@.len() as int] == x2.take(pb@.len() as int)[pa@.len() as int]);
                        }
                        if pb@.len() < pa@.len() {
                            assert(y1[pb@.len() as int] == y1.take(pa@.len() as int)[pb@.len() as int]);
                            assert(y2[pb@.len() as int] == y2.take(pa@.len() as int)[pb@.len() as int]);
                        }
                    }
                    assert(pa@ == pb@);
                    assert forall|c: u8| #[trigger] cha@.contains_key(c) implies chb@.contains_key(c) by {
                        lemma_child_wf(pa, cha, c);
                        let r = lemma_nonempty(cha@[c]);
                        lemma_lookup_join(pa, cha, c, r);
                        lemma_lookup_join(pb, chb, c, r);
                        assert(lookup(a, join(pa@, c, r)) is Some);
                    }
                    assert forall|c: u8| #[trigger] chb@.contains_key(c) implies cha@.contains_key(c) by {
                        lemma_child_wf(pb, chb, c);
                        let r = lemma_nonempty(chb@[c]);
                        lemma_lookup_join(pa, cha, c, r);
                        lemma_lookup_join(pb, chb, c, r);
                        assert(lookup(b, join(pb@, c, r)) is Some);
                    }
                    assert(cha@.dom() =~= chb@.dom());
                    assert forall|c: u8| #[trigger] cha@.contains_key(c) implies same_trie(cha@[c], chb@[c], (h - 1) as nat) by {
                        lemma_child_wf(pa, cha, c);
                        lemma_child_wf(pb, chb, c);
                        lemma_height_child(pa, cha, h, c);
                        lemma_height_child(pb, chb, h, c);
                        assert forall|r: Seq<u8>| #[trigger] lookup(cha@[c], r) == lookup(chb@[c], r) by {
                            lemma_lookup_join(pa, cha, c, r);
                            lemma_lookup_join(pb, chb, c, r);
                            assert(lookup(a, join(pa@, c, r)) == lookup(b, join(pb@, c, r)));
                        }
                        lemma_trie_canonical(cha@[c], chb@[c], (h - 1) as nat);
                    }
                },
            }
        },
    }
}

/// The value kept when two tries are merged: the right one where it has the key.
pub open spec fn union_right<V>(x: Option<V>, y: Option<V>) -> Option<V> {
    if y is Some {
        y
    } else {
        x
    }
}

/// No key of `a` is a proper prefix of a key of `b`, or the other way round.
pub open spec fn keys_apart<V, U>(a: Node<V>, b: Node<U>) -> bool {
    forall|x: Seq<u8>, y: Seq<u8>| #[trigger] lookup(a, x) is Some && #[trigger] lookup(b, y) is Some && x != y
        ==> !is_prefix(x, y) && !is_prefix(y, x)
}

/// What the child under byte `c` of a child map holds at `r`.
pub open spec fn slot<V>(m: Map<u8, Node<V>>, c: u8, r: Seq<u8>) -> Option<V> {
    if m.contains_key(c) {
        lookup(m[c], r)
    } else {
        None
    }
}

/// Two tries whose keys sit below the same bytes `q`, `c` in two tries with keys
/// apart have keys apart too.
pub proof fn lemma_keys_apart_below<V, U>(a: Node<V>, b: Node<U>, na: Node<V>, nb: Node<U>, q: Seq<u8>, c: u8)
    requires
        keys_apart(a, b),
        forall|r: Seq<u8>| #[trigger] lookup(na, r) is Some ==> lookup(a, join(q, c, r)) is Some,
        forall|r: Seq<u8>| #[trigger] lookup(nb, r) is Some ==> lookup(b, join(q, c, r)) is Some,
    ensures
        keys_apart(na, nb),
{
    assert forall|x: Seq<u8>, y: Seq<u8>| #[trigger] lookup(na, x) is Some && #[trigger] lookup(nb, y) is Some && x != y
        implies !is_prefix(x, y) && !is_prefix(y, x) by {
        lemma_join_prefix(q, c, x, y);
        lemma_join_prefix(q, c, y, x);
        lemma_join(q, c, x);
        lemma_join(q, c, y);
        assert(join(q, c, x) != join(q, c, y)) by {
            if join(q, c, x) == join(q, c, y) {
                assert(x == join(q, c, x).skip(q.len() + 1int));
            }
        }
        assert(lookup(a, join(q, c, x)) is Some);
        assert(lookup(b, join(q, c, y)) is Some);
    }
}

impl<V> Node<V> {
    /// Move every entry of `other` into `self`; `other`'s value wins on a shared key.
    /// The depths `ha` and `hb` bound the two tries and only serve the proof.
    pub fn append(self, other: Node<V>, Ghost(ha): Ghost<nat>, Ghost(hb): Ghost<nat>) -> (r: Node<V>)
        requires
            node_wf(self),
            node_wf(other),
            height_le(self, ha),
            height_le(other, hb),
            keys_apart(self, other),
        ensures
            node_wf(r),
            height_le(r, ha + hb + 1),
            forall|k: Seq<u8>| #[trigger] lookup(r, k) == union_right(lookup(self, k), lookup(other, k)),
        decreases ha + hb, 2nat,
    {
        match other {
            Node::Empty => {
                proof {
                    lemma_height_mono(self, ha, ha + hb + 1);
                }
                self
            },
            Node::Leaf(kb, vb) => {
                let ghost kbv = kb@;
                proof {
                    assert(lookup(other, kbv) is Some);
                    assert forall|k: Seq<u8>| #[trigger] lookup(self, k) is Some && k != kbv implies !is_prefix(k, kbv) && !is_prefix(kbv, k) by {}
                }
                let (r, _) = self.insert(kb.as_slice(), vb, true);
                proof {
                    assert(height_le(r, ha + 1));
                    lemma_height_mono(r, ha + 1, ha + hb + 1);
                    assert forall|k: Seq<u8>| #[trigger] lookup(r, k) == union_right(lookup(self, k), lookup(other, k)) by {
                        assert(lookup(r, k) == lookup_put_or_keep(self, k, kbv, vb, true));
                    }
                }
                r
            },
            Node::Sub(pb, chb) => {
                let b_node = Node::Sub(pb, chb);
                match self {
                    Node::Empty => {
                        proof {
                            lemma_height_mono(b_node, hb, ha + hb + 1);
                        }
                        b_node
                    },
                    Node::Leaf(ka, va) => {
                        let ghost kav = ka@;
                        proof {
                            assert(lookup(self, kav) is Some);
                            assert forall|k: Seq<u8>| #[trigger] lookup(b_node, k) is Some && k != kav implies !is_prefix(k, kav) && !is_prefix(kav, k) by {}
                        }
                        let (r, _) = b_node.insert(ka.as_slice(), va, false);
                        proof {
                            assert(height_le(r, hb + 1));
                            lemma_height_mono(r, hb + 1, ha + hb + 1);
                            assert forall|k: Seq<u8>| #[trigger] lookup(r, k) == union_right(lookup(self, k), lookup(other, k)) by {
                                assert(lookup(r, k) == lookup_put_or_keep(b_node, k, kav, va, false));
                            }
                        }
                        r
                    },
                    Node::Sub(pa, cha) => {
                        Node::append_subs(pa, cha, b_node, Ghost(ha), Ghost(hb))
                    },
                }
            },
        }
    }

    /// Merge two branches (the second given whole, as `b_node`).
    fn append_subs(pa: Vec<u8>, cha: ArrayMap<Node<V>>, b_node: Node<V>, Ghost(ha): Ghost<nat>, Ghost(hb): Ghost<nat>) -> (r: Node<V>)
        requires
            b_node is Sub,
            node_wf(Node::Sub(pa, cha)),
            node_wf(b_node),
            height_le(Node::Sub(pa, cha), ha),
            height_le(b_node, hb),
            keys_apart(Node::Sub(pa, cha), b_node),
        ensures
            node_wf(r),
            height_le(r, ha + hb + 1),
            forall|k: Seq<u8>| #[trigger] lookup(r, k) == union_right(lookup(Node::Sub(pa, cha), k), lookup(b_node, k)),
        decreases ha + hb, 1nat,
    {
        let ghost a_node = Node::Sub(pa, cha);
        let (pb, chb) = match b_node {
            Node::Sub(pb, chb) => (pb, chb),
            _ => {
                proof {
                    assert(false);
                }
                return b_node;
            },
        };
        proof {
            lemma_sub_wf(pa, cha);
            lemma_sub_wf(pb, chb);
            assert(bounded(a_node, Seq::empty(), ha));
            assert(bounded(b_node, Seq::empty(), hb));
        }
        let la = pa.len();
        let lb = pb.len();
        let a_in_b = la <= lb && crate::seqs::bytes_eq(pa.as_slice(), vstd::slice::slice_subrange(pb.as_slice(), 0, la));
        let b_in_a = lb <= la && crate::seqs::bytes_eq(pb.as_slice(), vstd::slice::slice_subrange(pa.as_slice(), 0, lb));
        proof {
            if la <= lb {
                assert(pb@.subrange(0, la as int) =~= pb@.take(la as int));
            }
            if lb <= la {
                assert(pa@.subrange(0, lb as int) =~= pa@.take(lb as int));
            }
            assert(a_in_b == is_prefix(pa@, pb@));
            assert(b_in_a == is_prefix(pb@, pa@));
        }
        if a_in_b && la == lb {
            proof {
                assert(pa@ =~= pb@);
            }
            Node::append_children(pa, cha, chb, Ghost(ha), Ghost(hb), Ghost(b_node))
        } else if a_in_b {
            let first = pb[la];
            let pb2 = vstd::slice::slice_to_vec(vstd::slice::slice_subrange(pb.as_slice(), la + 1, lb));
            proof {
                lemma_split(pa@, pb@);
                assert(pb2@ =~= pb@.skip(la + 1int));
                lemma_shift_wf(pb, pb2, pa@, first, chb);
                lemma_shift_height(pb, pb2, pa@, first, chb, hb);
            }
            let ghost pbv = pb;
            let ghost chbg = chb;
            let b2 = Node::Sub(pb2, chb);
            let mut cha = cha;
            let ghost old_cha = cha;
            let merged = match cha.remove(first) {
                Some(c) => {
                    proof {
                        lemma_child_wf(pa, old_cha, first);
                        lemma_height_child(pa, old_cha, ha, first);
                        assert forall|r: Seq<u8>| #[trigger] lookup(c, r) is Some implies lookup(a_node, join(pa@, first, r)) is Some by {
                            lemma_lookup_join(pa, old_cha, first, r);
                        }
                        assert forall|r: Seq<u8>| #[trigger] lookup(b2, r) is Some implies lookup(b_node, join(pa@, first, r)) is Some by {
                            lemma_join(pa@, first, r);
                            lemma_shift(pbv, pb2, pa@, first, chbg, join(pa@, first, r));
                        }
                        lemma_keys_apart_below(a_node, b_node, c, b2, pa@, first);
                    }
                    c.append(b2, Ghost((ha - 1) as nat), Ghost(hb))
                },
                None => b2,
            };
            let ghost mg = merged;
            proof {
                let key_b = lemma_nonempty(b2);
                if old_cha@.contains_key(first) {
                    assert(lookup(mg, key_b) == union_right(lookup(old_cha@[first], key_b), lookup(b2, key_b)));
                    lemma_height_mono(mg, ((ha - 1) as nat) + hb + 1, ha + hb);
                } else {
                    lemma_height_mono(mg, hb, ha + hb);
                }
                assert(!(mg is Empty));
            }
            cha.insert(first, merged);
            proof {
                use_type_invariant(&cha);
                cha.lemma_key_seq();
                old_cha.lemma_key_seq();
                if old_cha@.contains_key(first) {
                    assert(cha@.dom() =~= old_cha@.dom());
                } else {
                    assert(cha@.dom() =~= old_cha@.dom().insert(first));
                }
                assert forall|x: u8| #[trigger] cha@.contains_key(x) implies !(cha@[x] is Empty) && node_wf(cha@[x])
                    && height_le(cha@[x], ha + hb) by {
                    if x != first {
                        lemma_child_wf(pa, old_cha, x);
                        lemma_height_child(pa, old_cha, ha, x);
                        lemma_height_mono(cha@[x], (ha - 1) as nat, ha + hb);
                    }
                }
                lemma_make_sub_wf(pa, cha);
                lemma_height_make(pa, cha, ha + hb + 1);
            }
            let ghost chg = cha;
            let r = Node::Sub(pa, cha);
            proof {
                assert forall|k: Seq<u8>| #[trigger] lookup(r, k) == union_right(lookup(a_node, k), lookup(b_node, k)) by {
                    lemma_shift(pbv, pb2, pa@, first, chbg, k);
                    if pa@.len() < k.len() && k.take(pa@.len() as int) == pa@ {
                        lemma_split(pa@, k);
                        let x = k[pa@.len() as int];
                        let rk = k.skip(pa@.len() + 1int);
                        lemma_lookup_join(pa, chg, x, rk);
                        lemma_lookup_join(pa, old_cha, x, rk);
                    }
                }
            }
            r
        } else if b_in_a {
            proof {
                assert(lb < la) by {
                    if lb == la {
                        assert(pa@ =~= pb@);
                    }
                }
            }
            let first = pa[lb];
            let pa2 = vstd::slice::slice_to_vec(vstd::slice::slice_subrange(pa.as_slice(), lb + 1, la));
            proof {
                lemma_split(pb@, pa@);
                assert(pa2@ =~= pa@.skip(lb + 1int));
                lemma_shift_wf(pa, pa2, pb@, first, cha);
                lemma_shift_height(pa, pa2, pb@, first, cha, ha);
            }
            let ghost pav = pa;
            let ghost chag = cha;
            let a2 = Node::Sub(pa2, cha);
            let mut chb = chb;
            let ghost old_chb = chb;
            let merged = match chb.remove(first) {
                Some(c) => {
                    proof {
                        lemma_child_wf(pb, old_chb, first);
                        lemma_height_child(pb, old_chb, hb, first);
                        assert forall|r: Seq<u8>| #[trigger] lookup(c, r) is Some implies lookup(b_node, join(pb@, first, r)) is Some by {
                            lemma_lookup_join(pb, old_chb, first, r);
                        }
                        assert forall|r: Seq<u8>| #[trigger] lookup(a2, r) is Some implies lookup(a_node, join(pb@, first, r)) is Some by {
                            lemma_join(pb@, first, r);
                            lemma_shift(pav, pa2, pb@, first, chag, join(pb@, first, r));
                        }
                        lemma_keys_apart_below(a_node, b_node, a2, c, pb@, first);
                    }
                    a2.append(c, Ghost(ha), Ghost((hb - 1) as nat))
                },
                None => a2,
            };
            let ghost mg = merged;
            proof {
                let key_a = lemma_nonempty(a2);
                if old_chb@.contains_key(first) {
                    assert(lookup(mg, key_a) == union_right(lookup(a2, key_a), lookup(old_chb@[first], key_a)));
                    lemma_height_mono(mg, ha + ((hb - 1) as nat) + 1, ha + hb);
                } else {
                    lemma_height_mono(mg, ha, ha + hb);
                }
                assert(!(mg is Empty));
            }
            chb.insert(first, merged);
            proof {
                use_type_invariant(&chb);
                chb.lemma_key_seq();
                old_chb.lemma_key_seq();
                if old_chb@.contains_key(first) {
                    assert(chb@.dom() =~= old_chb@.dom());
                } else {
                    assert(chb@.dom() =~= old_chb@.dom().insert(first));
                }
                assert forall|x: u8| #[trigger] chb@.contains_key(x) implies !(chb@[x] is Empty) && node_wf(chb@[x])
                    && height_le(chb@[x], ha + hb) by {
                    if x != first {
                        lemma_child_wf(pb, old_chb, x);
                        lemma_height_child(pb, old_chb, hb, x);
                        lemma_height_mono(chb@[x], (hb - 1) as nat, ha + hb);
                    }
                }
                lemma_make_sub_wf(pb, chb);
                lemma_height_make(pb, chb, ha + hb + 1);
            }
            let ghost chg = chb;
            let r = Node::Sub(pb, chb);
            proof {
                assert forall|k: Seq<u8>| #[trigger] lookup(r, k) == union_right(lookup(a_node, k), lookup(b_node, k)) by {
                    lemma_shift(pav, pa2, pb@, first, chag, k);
                    if pb@.len() < k.len() && k.take(pb@.len() as int) == pb@ {
                        lemma_split(pb@, k);
                        let x = k[pb@.len() as int];
                        let rk = k.skip(pb@.len() + 1int);
                        lemma_lookup_join(pb, chg, x, rk);
                        lemma_lookup_join(pb, old_chb, x, rk);
                    }
                }
            }
            r
        } else {
            let n = match common_length(pa.as_slice(), pb.as_slice()) {
                Ok(n) => n,
                Err(_) => {
                    proof {
                        assert(false);
                    }
                    return Node::Sub(pa, cha);
                },
            };
            let common = vstd::slice::slice_subrange(pa.as_slice(), 0, n);
            let ca = pa[n];
            let cb = pb[n];
            let pa2 = vstd::slice::slice_to_vec(vstd::slice::slice_subrange(pa.as_slice(), n + 1, la));
            let pb2 = vstd::slice::slice_to_vec(vstd::slice::slice_subrange(pb.as_slice(), n + 1, lb));
            proof {
                assert(common@ =~= pa@.take(n as int));
                assert(pb@.take(n as int) == common@);
                lemma_split(common@, pa@);
                lemma_split(common@, pb@);
                assert(pa2@ =~= pa@.skip(n + 1int));
                assert(pb2@ =~= pb@.skip(n + 1int));
                lemma_shift_wf(pa, pa2, common@, ca, cha);
                lemma_shift_wf(pb, pb2, common@, cb, chb);
                lemma_shift_height(pa, pa2, common@, ca, cha, ha);
                lemma_shift_height(pb, pb2, common@, cb, chb, hb);
            }
            let ghost pav = pa;
            let ghost pbv = pb;
            let ghost chag = cha;
            let ghost chbg = chb;
            let na = Node::Sub(pa2, cha);
            let nb = Node::Sub(pb2, chb);
            let r = Node::from_pair(common, ca, cb, na, nb);
            proof {
                lemma_height_mono(na, ha, ha + hb);
                lemma_height_mono(nb, hb, ha + hb);
                assert forall|k: Seq<u8>| #[trigger] lookup(r, k) == union_right(lookup(a_node, k), lookup(b_node, k)) by {
                    lemma_shift(pav, pa2, common@, ca, chag, k);
                    lemma_shift(pbv, pb2, common@, cb, chbg, k);
                    if common@.len() < k.len() && k.take(common@.len() as int) == common@ {
                        lemma_split(common@, k);
                    }
                }
            }
            r
        }
    }

    /// Merge the children of two branches with the same shared bytes.
    fn append_children(p: Vec<u8>, cha: ArrayMap<Node<V>>, chb: ArrayMap<Node<V>>, Ghost(ha): Ghost<nat>, Ghost(hb): Ghost<nat>, Ghost(b_node): Ghost<Node<V>>) -> (r: Node<V>)
        requires
            b_node is Sub,
            b_node->Sub_0@ == p@,
            b_node->Sub_1 == chb,
            node_wf(Node::Sub(p, cha)),
            node_wf(b_node),
            height_le(Node::Sub(p, cha), ha),
            height_le(b_node, hb),
            keys_apart(Node::Sub(p, cha), b_node),
        ensures
            node_wf(r),
            height_le(r, ha + hb + 1),
            forall|k: Seq<u8>| #[trigger] lookup(r, k) == union_right(lookup(Node::Sub(p, cha), k), lookup(b_node, k)),
        decreases ha + hb, 0nat,
    {
        let ghost a_node = Node::Sub(p, cha);
        let ghost cha0 = cha@;
        let ghost chb0 = chb@;
        let ghost cham0 = cha;
        proof {
            lemma_sub_wf(p, cha);
            lemma_sub_wf(b_node->Sub_0, chb);
            assert(bounded(a_node, Seq::empty(), ha));
            assert(bounded(b_node, Seq::empty(), hb));
            assert forall|c: u8| #[trigger] cha0.contains_key(c) implies height_le(cha0[c], (ha - 1) as nat) by {
                lemma_height_child(p, cham0, ha, c);
            }
            assert forall|c: u8| #[trigger] chb0.contains_key(c) implies height_le(chb0[c], (hb - 1) as nat) by {
                lemma_height_child(b_node->Sub_0, chb, hb, c);
            }
            assert forall|c: u8| #[trigger] cha0.contains_key(c) implies height_le(cha0[c], (ha + hb - 1) as nat) by {
                lemma_height_mono(cha0[c], (ha - 1) as nat, (ha + hb - 1) as nat);
            }
        }
        let mut cha = cha;
        let mut chb = chb;
        loop
            invariant
                ha >= 1,
                hb >= 1,
                b_node is Sub,
                b_node->Sub_0@ == p@,
                keys_apart(a_node, b_node),
                a_node == Node::Sub(p, cham0),
                cha0 == cham0@,
                b_node->Sub_1@ == chb0,
                forall|c: u8| #[trigger] cha0.contains_key(c) ==> !(cha0[c] is Empty) && node_wf(cha0[c])
                    && height_le(cha0[c], (ha - 1) as nat),
                forall|c: u8| #[trigger] chb0.contains_key(c) ==> !(chb0[c] is Empty) && node_wf(chb0[c])
                    && height_le(chb0[c], (hb - 1) as nat),
                forall|c: u8| #[trigger] cha@.contains_key(c) ==> !(cha@[c] is Empty) && node_wf(cha@[c])
                    && height_le(cha@[c], (ha + hb - 1) as nat),
                forall|c: u8| #[trigger] chb@.contains_key(c) ==> chb0.contains_key(c) && chb@[c] == chb0[c]
                    && cha@.contains_key(c) == cha0.contains_key(c) && (cha0.contains_key(c) ==> cha@[c] == cha0[c]),
                forall|c: u8| !chb@.contains_key(c) && #[trigger] chb0.contains_key(c) ==> cha@.contains_key(c),
                forall|c: u8, r: Seq<u8>| !chb@.contains_key(c) && chb0.contains_key(c) ==>
                    #[trigger] slot(cha@, c, r) == union_right(slot(cha0, c, r), slot(chb0, c, r)),
                forall|c: u8| !#[trigger] chb0.contains_key(c) ==> cha@.contains_key(c) == cha0.contains_key(c)
                    && (cha0.contains_key(c) ==> cha@[c] == cha0[c]),
            ensures
                chb@.len() == 0,
            decreases chb@.len(),
        {
            proof {
                use_type_invariant(&chb);
                chb.lemma_key_seq();
            }
            let ghost cha_before = cha@;
            let ghost chb_before = chb@;
            match chb.pop_first() {
                Some((c, nb)) => {
                    proof {
                        assert(chb_before.contains_key(c));
                    }
                    match cha.remove(c) {
                        Some(na) => {
                            proof {
                                assert(cha0.contains_key(c) && cha0[c] == na);
                                assert(chb0[c] == nb);
                                assert forall|r: Seq<u8>| #[trigger] lookup(na, r) is Some implies lookup(a_node, join(p@, c, r)) is Some by {
                                    lemma_lookup_join(p, cham0, c, r);
                                }
                                assert forall|r: Seq<u8>| #[trigger] lookup(nb, r) is Some implies lookup(b_node, join(p@, c, r)) is Some by {
                                    lemma_lookup_join_old(b_node, c, r);
                                }
                                lemma_keys_apart_below(a_node, b_node, na, nb, p@, c);
                            }
                            let m = na.append(nb, Ghost((ha - 1) as nat), Ghost((hb - 1) as nat));
                            proof {
                                let key_b = lemma_nonempty(nb);
                                assert(lookup(m, key_b) == union_right(lookup(na, key_b), lookup(nb, key_b)));
                                assert(((ha - 1) as nat) + ((hb - 1) as nat) + 1 == (ha + hb - 1) as nat);
                            }
                            cha.insert(c, m);
                            proof {
                                assert forall|r: Seq<u8>| #[trigger] slot(cha@, c, r) == union_right(slot(cha0, c, r), slot(chb0, c, r)) by {
                                    assert(lookup(m, r) == union_right(lookup(na, r), lookup(nb, r)));
                                }
                            }
                        },
                        None => {
                            proof {
                                assert(!cha0.contains_key(c));
                                lemma_height_mono(nb, (hb - 1) as nat, (ha + hb - 1) as nat);
                            }
                            cha.insert(c, nb);
                            proof {
                                assert forall|r: Seq<u8>| #[trigger] slot(cha@, c, r) == union_right(slot(cha0, c, r), slot(chb0, c, r)) by {}
                            }
                        },
                    }
                    proof {
                        assert forall|x: u8, r: Seq<u8>| !chb@.contains_key(x) && chb0.contains_key(x) implies
                            #[trigger] slot(cha@, x, r) == union_right(slot(cha0, x, r), slot(chb0, x, r)) by {
                            if x != c {
                                assert(!chb_before.contains_key(x));
                                assert(slot(cha@, x, r) == slot(cha_before, x, r));
                            }
                        }
                        assert forall|x: u8| #[trigger] cha@.contains_key(x) implies !(cha@[x] is Empty) && node_wf(cha@[x])
                            && height_le(cha@[x], (ha + hb - 1) as nat) by {
                            if x != c {
                                assert(cha_before.contains_key(x));
                            }
                        }
                    }
                },
                None => {
                    break;
                },
            }
        }
        proof {
            use_type_invariant(&chb);
            chb.lemma_key_seq();
            assert forall|c: u8| !#[trigger] chb@.contains_key(c) by {
                if chb@.contains_key(c) {
                    assert(chb.key_seq().contains(c));
                }
            }
            use_type_invariant(&cha);
            cha.lemma_key_seq();
            cham0.lemma_key_seq();
            assert(cha0.dom().subset_of(cha@.dom())) by {
                assert forall|c: u8| cha0.dom().contains(c) implies cha@.dom().contains(c) by {
                    if chb0.contains_key(c) {
                        assert(cha@.contains_key(c));
                    }
                }
            }
            vstd::set_lib::lemma_len_subset(cha0.dom(), cha@.dom());
            lemma_make_sub_wf(p, cha);
            lemma_height_make(p, cha, ha + hb);
            lemma_height_mono(Node::Sub(p, cha), ha + hb, ha + hb + 1);
        }
        let ghost chg = cha;
        let r = Node::Sub(p, cha);
        proof {
            assert forall|k: Seq<u8>| #[trigger] lookup(r, k) == union_right(lookup(a_node, k), lookup(b_node, k)) by {
                if p@.len() < k.len() && k.take(p@.len() as int) == p@ {
                    lemma_split(p@, k);
                    let x = k[p@.len() as int];
                    let rk = k.skip(p@.len() + 1int);
                    lemma_lookup_join(p, chg, x, rk);
                    lemma_lookup_join(p, cham0, x, rk);
                    lemma_lookup_join_old(b_node, x, rk);
                    if chb0.contains_key(x) {
                        assert(slot(chg@, x, rk) == union_right(slot(cha0, x, rk), slot(chb0, x, rk)));
                    }
                } else {
                    assert(lookup(b_node, k) is None) by {
                        if lookup(b_node, k) is Some {
                            lemma_sub_keys(b_node->Sub_0, b_node->Sub_1, k);
                        }
                    }
                }
            }
        }
        r
    }
}

} // verus!

verus! {

/// The byte string is the encoding of a valid `K`.
pub open spec fn is_key<K: ToOutput>(k: Seq<u8>) -> bool {
    exists|v: K::V| K::spec_valid(v) && K::spec_output(v) == k
}

/// Encodings that decode from the front of an input are prefix-free: when one valid
/// value's encoding starts another's, they are the same value.
pub proof fn lemma_encodings_apart<K: ParseInline>(a: K::V, b: K::V)
    requires
        K::spec_valid(a),
        K::spec_valid(b),
        is_prefix(K::spec_output(a), K::spec_output(b)),
    ensures
        a == b,
{
    let oa = K::spec_output(a);
    let ob = K::spec_output(b);
    let rest = ob.skip(oa.len() as int);
    assert(ob =~= oa + rest);
    K::lemma_parse_inline_roundtrip(a, rest);
    K::lemma_parse_inline_roundtrip(b, Seq::empty());
    assert(ob + Seq::<u8>::empty() =~= ob);
}

/// A map keyed by values of `K`, held as a radix trie over their encodings.
pub struct AmtMap<K: ParseInline, V> {
    root: Node<V>,
    height: Ghost<nat>,
    key: PhantomData<K>,
}

impl<K: ParseInline, V> View for AmtMap<K, V> {
    type V = Map<Seq<u8>, V>;

    /// The entries, keyed by the encodings of the keys.
    closed spec fn view(&self) -> Map<Seq<u8>, V> {
        Map::new(|k: Seq<u8>| lookup(self.root, k) is Some, |k: Seq<u8>| lookup(self.root, k)->Some_0)
    }
}

impl<K: ParseInline, V> AmtMap<K, V> {
    #[verifier::type_invariant]
    pub closed spec fn inv(&self) -> bool {
        &&& node_wf(self.root)
        &&& height_le(self.root, self.height@)
        &&& forall|k: Seq<u8>| #[trigger] lookup(self.root, k) is Some ==> is_key::<K>(k)
    }

    /// The root of the trie.
    pub closed spec fn root_node(&self) -> Node<V> {
        self.root
    }

    /// A bound on the depth of the trie.
    pub closed spec fn depth_bound(&self) -> nat {
        self.height@
    }

    /// Two maps with the same entries are held as tries of the same shape, so that
    /// what is stored for a map depends on its entries alone.
    pub proof fn lemma_same_entries_same_shape(&self, other: &Self)
        requires
            self.inv(),
            other.inv(),
            self@ == other@,
        ensures
            same_trie(self.root_node(), other.root_node(), self.depth_bound() + other.depth_bound()),
    {
        let h = self.height@ + other.height@;
        lemma_height_mono(self.root, self.height@, h);
        lemma_height_mono(other.root, other.height@, h);
        assert forall|k: Seq<u8>| #[trigger] lookup(self.root, k) == lookup(other.root, k) by {
            if lookup(self.root, k) is Some {
                assert(self@.contains_key(k));
                assert(other@.contains_key(k));
                assert(lookup(other.root, k) is Some);
                assert(self@[k] == lookup(self.root, k)->Some_0);
                assert(other@[k] == lookup(other.root, k)->Some_0);
                assert(self@[k] == other@[k]);
            } else if lookup(other.root, k) is Some {
                assert(other@.contains_key(k));
            }
        }
        lemma_trie_canonical(self.root, other.root, h);
    }

    /// An empty map.
    pub fn new() -> (r: Self)
        ensures
            r@ == Map::<Seq<u8>, V>::empty(),
    {
        proof {
            lemma_height_flat(Node::<V>::Empty);
            assert forall|k: Seq<u8>| #[trigger] path_ok(Node::<V>::Empty, k) by {}
        }
        let r = AmtMap { root: Node::Empty, height: Ghost(0), key: PhantomData };
        proof {
            assert(r@ =~= Map::<Seq<u8>, V>::empty());
        }
        r
    }

    /// A copy of the value at `k`.
    pub fn get(&self, k: &K) -> (r: Option<V>)
        where
            V: Clone,
        ensures
            r is Some == self@.contains_key(K::spec_output(k.deep_view())),
            r matches Some(v) ==> cloned::<V>(self@[K::spec_output(k.deep_view())], v),
    {
        let key = crate::traits::output(k);
        match self.root.get(key.as_slice()) {
            Some(v) => Some(v.clone()),
            None => None,
        }
    }

    /// Set the value at `k`, giving back the one it replaces.
    pub fn insert(&mut self, k: K, v: V) -> (r: Option<V>)
        requires
            K::spec_valid(k.deep_view()),
        ensures
            final(self)@ == old(self)@.insert(K::spec_output(k.deep_view()), v),
            r == if old(self)@.contains_key(K::spec_output(k.deep_view())) {
                Some(old(self)@[K::spec_output(k.deep_view())])
            } else {
                None
            },
    {
        proof {
            use_type_invariant(&*self);
        }
        let key = crate::traits::output(&k);
        let ghost kv = key@;
        let ghost h = self.height@;
        proof {
            assert forall|x: Seq<u8>| #[trigger] lookup(self.root, x) is Some && x != kv implies !is_prefix(x, kv) && !is_prefix(kv, x) by {
                let xv = choose|xv: K::V| K::spec_valid(xv) && K::spec_output(xv) == x;
                if is_prefix(x, kv) {
                    lemma_encodings_apart::<K>(xv, k.deep_view());
                }
                if is_prefix(kv, x) {
                    lemma_encodings_apart::<K>(k.deep_view(), xv);
                }
            }
        }
        let mut root = Node::Empty;
        std::mem::swap(&mut root, &mut self.root);
        let ghost old_root = root;
        let (root, r) = root.insert(key.as_slice(), v, true);
        proof {
            assert(height_le(root, h + 1));
            assert forall|x: Seq<u8>| #[trigger] lookup(root, x) is Some implies is_key::<K>(x) by {
                assert(lookup(root, x) == lookup_put_or_keep(old_root, x, kv, v, true));
                if x == kv {
                    assert(K::spec_valid(k.deep_view()) && K::spec_output(k.deep_view()) == x);
                }
            }
        }
        *self = AmtMap { root, height: Ghost(h + 1), key: PhantomData };
        proof {
            assert forall|x: Seq<u8>| #[trigger] lookup(root, x) == lookup_put_or_keep(old_root, x, kv, v, true) by {}
            assert(self@ =~= old(self)@.insert(kv, v));
        }
        r
    }

    /// Remove `k`, giving back its value.
    pub fn remove(&mut self, k: &K) -> (r: Option<V>)
        ensures
            final(self)@ == old(self)@.remove(K::spec_output(k.deep_view())),
            r == if old(self)@.contains_key(K::spec_output(k.deep_view())) {
                Some(old(self)@[K::spec_output(k.deep_view())])
            } else {
                None
            },
    {
        proof {
            use_type_invariant(&*self);
        }
        let key = crate::traits::output(k);
        let ghost kv = key@;
        let ghost h = self.height@;
        let mut root = Node::Empty;
        std::mem::swap(&mut root, &mut self.root);
        let ghost old_root = root;
        let (root, r) = root.remove(key.as_slice());
        proof {
            assert(height_le(root, h));
            assert forall|x: Seq<u8>| #[trigger] lookup(root, x) is Some implies is_key::<K>(x) by {
                assert(lookup(root, x) == after_drop(lookup(old_root, x), x, kv));
            }
        }
        self.root = root;
        proof {
            assert forall|x: Seq<u8>| #[trigger] lookup(root, x) == after_drop(lookup(old_root, x), x, kv) by {}
            assert(self@ =~= old(self)@.remove(kv));
        }
        r
    }

    /// Remove every entry.
    pub fn clear(&mut self)
        ensures
            final(self)@ == Map::<Seq<u8>, V>::empty(),
    {
        *self = AmtMap::new();
    }

    /// Whether there are no entries.
    pub fn is_empty(&self) -> (r: bool)
        ensures
            r == (self@ == Map::<Seq<u8>, V>::empty()),
    {
        proof {
            use_type_invariant(self);
        }
        let r = self.root.is_empty();
        proof {
            if r {
                assert(self@ =~= Map::<Seq<u8>, V>::empty());
            } else {
                let k = lemma_nonempty(self.root);
                assert(self@.contains_key(k));
            }
        }
        r
    }

    /// Move every entry of `other` into `self`, leaving `other` empty; `other`'s value
    /// wins on a shared key.
    pub fn append(&mut self, other: &mut Self)
        ensures
            final(self)@ == old(self)@.union_prefer_right(old(other)@),
            final(other)@ == Map::<Seq<u8>, V>::empty(),
    {
        proof {
            use_type_invariant(&*self);
            use_type_invariant(&*other);
        }
        let ghost ha = self.height@;
        let ghost hb = other.height@;
        let mut a = Node::Empty;
        std::mem::swap(&mut a, &mut self.root);
        let mut b = Node::Empty;
        std::mem::swap(&mut b, &mut other.root);
        let ghost (a0, b0) = (a, b);
        proof {
            assert forall|x: Seq<u8>, y: Seq<u8>| #[trigger] lookup(a0, x) is Some && #[trigger] lookup(b0, y) is Some && x != y
                implies !is_prefix(x, y) && !is_prefix(y, x) by {
                let xv = choose|xv: K::V| K::spec_valid(xv) && K::spec_output(xv) == x;
                let yv = choose|yv: K::V| K::spec_valid(yv) && K::spec_output(yv) == y;
                if is_prefix(x, y) {
                    lemma_encodings_apart::<K>(xv, yv);
                }
                if is_prefix(y, x) {
                    lemma_encodings_apart::<K>(yv, xv);
                }
            }
        }
        let n = a.append(b, Ghost(ha), Ghost(hb));
        proof {
            assert forall|x: Seq<u8>| #[trigger] lookup(n, x) is Some implies is_key::<K>(x) by {
                assert(lookup(n, x) == union_right(lookup(a0, x), lookup(b0, x)));
            }
            lemma_height_flat(Node::<V>::Empty);
            assert forall|k: Seq<u8>| #[trigger] path_ok(Node::<V>::Empty, k) by {}
        }
        *self = AmtMap { root: n, height: Ghost(ha + hb + 1), key: PhantomData };
        proof {
            assert forall|x: Seq<u8>| #[trigger] lookup(n, x) == union_right(lookup(a0, x), lookup(b0, x)) by {}
            assert(self@ =~= old(self)@.union_prefer_right(old(other)@));
            assert(other@ =~= Map::<Seq<u8>, V>::empty());
        }
    }
}

/// A map after a change set: the value the set gives where it gives `Some`, no entry
/// where it gives `None`, and the old entry where the set has no key.
pub open spec fn bulk_applied<V>(a: Map<Seq<u8>, V>, b: Map<Seq<u8>, Option<V>>) -> Map<Seq<u8>, V> {
    Map::new(
        |k: Seq<u8>| if b.contains_key(k) {
            b[k] is Some
        } else {
            a.contains_key(k)
        },
        |k: Seq<u8>| if b.contains_key(k) {
            b[k]->Some_0
        } else {
            a[k]
        },
    )
}

/// The value, as a present optional value.
pub fn some_of<V>(v: V) -> (r: Option<V>)
    ensures
        r == Some(v),
{
    Some(v)
}

impl<K: ParseInline, V> AmtMap<K, V> {
    /// Keys held by two maps of this key type are never a proper prefix of each other.
    proof fn lemma_apart_with<U>(&self, other: &AmtMap<K, U>)
        requires
            self.inv(),
            other.inv(),
        ensures
            keys_apart(self.root, other.root),
    {
        assert forall|x: Seq<u8>, y: Seq<u8>| #[trigger] lookup(self.root, x) is Some && #[trigger] lookup(other.root, y) is Some && x != y
            implies !is_prefix(x, y) && !is_prefix(y, x) by {
            let xv = choose|xv: K::V| K::spec_valid(xv) && K::spec_output(xv) == x;
            let yv = choose|yv: K::V| K::spec_valid(yv) && K::spec_output(yv) == y;
            if is_prefix(x, y) {
                lemma_encodings_apart::<K>(xv, yv);
            }
            if is_prefix(y, x) {
                lemma_encodings_apart::<K>(yv, xv);
            }
        }
    }

    /// The same map with every value passed through `f`.
    pub fn map<U, F: Fn(V) -> U>(self, f: F) -> (r: AmtMap<K, U>)
        requires
            forall|v: V| #[trigger] f.requires((v,)),
        ensures
            r@.dom() == self@.dom(),
            forall|k: Seq<u8>| #[trigger] self@.contains_key(k) ==> f.ensures((self@[k],), r@[k]),
    {
        proof {
            use_type_invariant(&self);
        }
        let ghost old_view = self@;
        let AmtMap { root, height, key } = self;
        let ghost a = root;
        let n = root.map(&f, Ghost(height@));
        proof {
            assert forall|x: Seq<u8>| #[trigger] lookup(n, x) is Some implies is_key::<K>(x) by {
                assert(lookup(a, x) is Some);
            }
        }
        let r = AmtMap { root: n, height, key: PhantomData };
        proof {
            assert(r@.dom() =~= old_view.dom());
            assert forall|k: Seq<u8>| #[trigger] old_view.contains_key(k) implies f.ensures((old_view[k],), r@[k]) by {
                assert(lookup(a, k) is Some);
            }
        }
        r
    }

    /// The map of what `f` gives for each value, without the keys for which it gives
    /// `None`.
    pub fn filter_map<U, F: Fn(V) -> Option<U>>(self, f: F) -> (r: AmtMap<K, U>)
        requires
            forall|v: V| #[trigger] f.requires((v,)),
        ensures
            r@.dom().subset_of(self@.dom()),
            forall|k: Seq<u8>| #[trigger] self@.contains_key(k) ==> f.ensures((self@[k],), r@.get(k)),
    {
        proof {
            use_type_invariant(&self);
        }
        let ghost old_view = self@;
        let AmtMap { root, height, key } = self;
        let ghost a = root;
        let n = root.filter_map(&f, Ghost(height@));
        proof {
            assert forall|x: Seq<u8>| #[trigger] lookup(n, x) is Some implies is_key::<K>(x) by {
                assert(lookup(a, x) is Some);
            }
        }
        let r = AmtMap { root: n, height, key: PhantomData };
        proof {
            assert forall|k: Seq<u8>| r@.dom().contains(k) implies old_view.dom().contains(k) by {
                assert(lookup(a, k) is Some);
            }
            assert forall|k: Seq<u8>| #[trigger] old_view.contains_key(k) implies f.ensures((old_view[k],), r@.get(k)) by {
                assert(lookup(a, k) is Some);
                assert(r@.get(k) == lookup(n, k));
            }
        }
        r
    }

    /// Apply the change set `bulk`: set the value at each key it gives `Some` for and
    /// remove each key it gives `None` for. What comes back are the values that stood,
    /// before, at the keys of `bulk`.
    pub fn bulk(&mut self, bulk: AmtMap<K, Option<V>>) -> (r: AmtMap<K, V>)
        ensures
            final(self)@ == bulk_applied(old(self)@, bulk@),
            r@ == old(self)@.restrict(bulk@.dom()),
    {
        proof {
            use_type_invariant(&*self);
            use_type_invariant(&bulk);
            self.lemma_apart_with(&bulk);
        }
        let ghost ha = self.height@;
        let ghost bulk_view = bulk@;
        let AmtMap { root: b, height: hb, key: _ } = bulk;
        let ghost hb = hb@;
        let mut a = Node::Empty;
        std::mem::swap(&mut a, &mut self.root);
        let ghost (a0, b0) = (a, b);
        let (n, t) = a.op(b, Ghost(ha), Ghost(hb));
        let s = settled(t, Ghost(ha + hb + 1));
        proof {
            assert forall|x: Seq<u8>| #[trigger] lookup(n, x) is Some implies is_key::<K>(x) by {
                assert(lookup(n, x) == applied(lookup(a0, x), lookup(b0, x)));
            }
            assert forall|x: Seq<u8>| #[trigger] lookup(s, x) is Some implies is_key::<K>(x) by {
                assert(lookup(t, x) == taken(lookup(a0, x), lookup(b0, x)));
            }
        }
        *self = AmtMap { root: n, height: Ghost(ha + hb + 1), key: PhantomData };
        let r = AmtMap { root: s, height: Ghost(ha + hb + 1), key: PhantomData };
        proof {
            assert forall|x: Seq<u8>| #[trigger] lookup(n, x) == applied(lookup(a0, x), lookup(b0, x)) by {}
            assert forall|x: Seq<u8>| #[trigger] lookup(s, x) == applied(None, taken(lookup(a0, x), lookup(b0, x))) by {
                assert(lookup(t, x) == taken(lookup(a0, x), lookup(b0, x)));
            }
            assert(self@ =~= bulk_applied(old(self)@, bulk_view));
            assert(r@ =~= old(self)@.restrict(bulk_view.dom()));
        }
        r
    }

    /// Move every entry of `other` into `self`, `other`'s value winning on a shared key;
    /// `other` is left with the values that `self` had at the shared keys.
    pub fn append_swap(&mut self, other: &mut Self)
        ensures
            final(self)@ == old(self)@.union_prefer_right(old(other)@),
            final(other)@ == old(self)@.restrict(old(other)@.dom()),
    {
        let mut taken_other = AmtMap::new();
        std::mem::swap(&mut taken_other, other);
        let ghost ov = taken_other@;
        let changes = taken_other.map(some_of);
        let ghost cv = changes@;
        let r = self.bulk(changes);
        *other = r;
        proof {
            assert forall|k: Seq<u8>| #[trigger] cv.contains_key(k) implies cv[k] == Some(ov[k]) by {
                assert(ov.contains_key(k));
            }
            assert(final(self)@ =~= old(self)@.union_prefer_right(ov));
            assert(final(other)@ =~= old(self)@.restrict(ov.dom()));
        }
    }
}

/// A set of values of `T`, held as a radix trie over their encodings.
pub struct AmtSet<T: ParseInline>(AmtMap<T, ()>);

impl<T: ParseInline> View for AmtSet<T> {
    type V = Set<Seq<u8>>;

    /// The encodings of the values present.
    closed spec fn view(&self) -> Set<Seq<u8>> {
        self.0@.dom()
    }
}

impl<T: ParseInline> AmtSet<T> {
    /// An empty set.
    pub fn new() -> (r: Self)
        ensures
            r@ == Set::<Seq<u8>>::empty(),
    {
        let r = AmtSet(AmtMap::new());
        proof {
            assert(r@ =~= Set::<Seq<u8>>::empty());
        }
        r
    }

    /// Whether `value` is present.
    pub fn contains(&self, value: &T) -> (r: bool)
        ensures
            r == self@.contains(T::spec_output(value.deep_view())),
    {
        self.0.get(value).is_some()
    }

    /// Add `value`; true when it was not present before.
    pub fn insert(&mut self, value: T) -> (r: bool)
        requires
            T::spec_valid(value.deep_view()),
        ensures
            final(self)@ == old(self)@.insert(T::spec_output(value.deep_view())),
            r == !old(self)@.contains(T::spec_output(value.deep_view())),
    {
        let ghost k = T::spec_output(value.deep_view());
        let r = self.0.insert(value, ());
        proof {
            assert(self@ =~= old(self)@.insert(k));
        }
        r.is_none()
    }

    /// Remove `value`; true when it was present.
    pub fn remove(&mut self, value: &T) -> (r: bool)
        ensures
            final(self)@ == old(self)@.remove(T::spec_output(value.deep_view())),
            r == old(self)@.contains(T::spec_output(value.deep_view())),
    {
        let r = self.0.remove(value);
        proof {
            assert(self@ =~= old(self)@.remove(T::spec_output(value.deep_view())));
        }
        r.is_some()
    }

    /// Remove every value.
    pub fn clear(&mut self)
        ensures
            final(self)@ == Set::<Seq<u8>>::empty(),
    {
        self.0.clear();
        proof {
            assert(self@ =~= Set::<Seq<u8>>::empty());
        }
    }

    /// Whether there are no values.
    pub fn is_empty(&self) -> (r: bool)
        ensures
            r == (self@ == Set::<Seq<u8>>::empty()),
    {
        let r = self.0.is_empty();
        proof {
            if !r {
                if self@ =~= Set::<Seq<u8>>::empty() {
                    assert(self.0@ =~= Map::<Seq<u8>, ()>::empty());
                }
            } else {
                assert(self@ =~= Set::<Seq<u8>>::empty());
            }
        }
        r
    }

    /// Move every value of `other` into `self`, leaving `other` empty.
    pub fn append(&mut self, other: &mut Self)
        ensures
            final(self)@ == old(self)@.union(old(other)@),
            final(other)@ == Set::<Seq<u8>>::empty(),
    {
        self.0.append(&mut other.0);
        proof {
            assert(self@ =~= old(self)@.union(old(other)@));
            assert(other@ =~= Set::<Seq<u8>>::empty());
        }
    }

    /// Move every value of `other` into `self`; `other` is left with the values the two
    /// had in common.
    pub fn append_swap(&mut self, other: &mut Self)
        ensures
            final(self)@ == old(self)@.union(old(other)@),
            final(other)@ == old(self)@.intersect(old(other)@),
    {
        self.0.append_swap(&mut other.0);
        proof {
            assert(self@ =~= old(self)@.union(old(other)@));
            assert(other@ =~= old(self)@.intersect(old(other)@));
        }
    }
}

} // verus!
