use vstd::prelude::*;
use crate::error::Error;

verus! {

/// How many items a node of the given level holds when full: a leaf (level one)
/// holds 256, each level above holds 256 full nodes of the level below.
pub open spec fn cap(level: nat) -> nat
    decreases level,
{
    if level == 0 {
        1
    } else {
        256 * cap((level - 1) as nat)
    }
}

/// The highest level a tree grows to.
pub open spec fn max_level() -> nat {
    8
}

/// A node of an append-only tree: a leaf of items, or the nodes of the level below.
pub enum TreeNode<T> {
    Leaf(Vec<T>),
    Inner(Vec<TreeNode<T>>),
}

/// The node of the given level holds `len` items, packed to the left: every child but
/// the last is full, and the last holds the rest.
pub open spec fn node_ok<T>(n: TreeNode<T>, level: nat, len: nat) -> bool
    decreases level,
{
    match n {
        TreeNode::Leaf(items) => level == 1 && items@.len() == len && len <= 256,
        TreeNode::Inner(ch) => {
            &&& level > 1
            &&& len <= cap(level)
            &&& ch@.len() <= 256
            &&& len == 0 ==> ch@.len() == 0
            &&& len > 0 ==> {
                &&& ch@.len() == (len as int - 1) / (cap((level - 1) as nat) as int) + 1
                &&& forall|i: int| 0 <= i < ch@.len() - 1 ==> node_ok(
                    #[trigger] ch@[i],
                    (level - 1) as nat,
                    cap((level - 1) as nat),
                )
                &&& node_ok(
                    ch@[ch@.len() - 1],
                    (level - 1) as nat,
                    (len - (ch@.len() - 1) * cap((level - 1) as nat)) as nat,
                )
            }
        },
    }
}

/// The item at position `i` of a node of the given level.
pub open spec fn item_at<T>(n: TreeNode<T>, level: nat, i: nat) -> T
    decreases level,
{
    match n {
        TreeNode::Leaf(items) => items@[i as int],
        TreeNode::Inner(ch) => if level > 1 {
            let c = cap((level - 1) as nat);
            item_at(ch@[(i / c) as int], (level - 1) as nat, i % c)
        } else {
            arbitrary()
        },
    }
}

/// Capacities are positive and grow by a factor of 256 per level.
pub proof fn lemma_cap(level: nat)
    ensures
        cap(level) >= 1,
        level >= 1 ==> cap(level) == 256 * cap((level - 1) as nat),
        level >= 1 ==> cap(level) >= 256,
    decreases level,
{
    if level > 0 {
        lemma_cap((level - 1) as nat);
    }
}

/// The capacity of a level, for levels whose capacity fits in 64 bits.
pub fn cap_exec(level: usize) -> (r: u64)
    requires
        level <= 7,
    ensures
        r == cap(level as nat),
{
    let mut r: u64 = 1;
    let mut l: usize = 0;
    while l < level
        invariant
            l <= level <= 7,
            r == cap(l as nat),
        decreases level - l,
    {
        proof {
            lemma_cap(l as nat);
            lemma_cap((l + 1) as nat);
            lemma_cap_bound(l as nat);
        }
        r = r * 256;
        l = l + 1;
    }
    r
}

/// Capacities grow with the level.
pub proof fn lemma_cap_mono(a: nat, b: nat)
    requires
        a <= b,
    ensures
        cap(a) <= cap(b),
    decreases b,
{
    if a < b {
        lemma_cap_mono(a, (b - 1) as nat);
        lemma_cap(b);
    }
}

/// Capacities of the levels up to seven fit in 56 bits; that of six, in 48.
pub proof fn lemma_cap_bound(level: nat)
    requires
        level <= 7,
    ensures
        cap(level) <= 0x100000000000000,
        level < 7 ==> cap(level) <= 0x1000000000000,
{
    assert(cap(6) == 0x1000000000000 && cap(7) == 0x100000000000000) by {
        reveal_with_fuel(cap, 8);
    }
    if level < 7 {
        lemma_cap_mono(level, 6);
    } else {
        lemma_cap_mono(level, 7);
    }
}

/// An empty node of the given level.
pub fn empty_node<T>(level: usize) -> (r: TreeNode<T>)
    requires
        level >= 1,
    ensures
        node_ok(r, level as nat, 0),
{
    if level == 1 {
        TreeNode::Leaf(Vec::new())
    } else {
        proof {
            lemma_cap(level as nat);
        }
        TreeNode::Inner(Vec::new())
    }
}

/// Division facts for a node holding `n` items in children of capacity `c`.
proof fn lemma_split_len(n: int, c: int)
    requires
        c >= 1,
        n > 0,
    ensures
        (n - 1) / c <= n / c,
        n % c != 0 ==> (n - 1) / c == n / c,
        n % c == 0 ==> (n - 1) / c + 1 == n / c,
        n / c * c + n % c == n,
        0 <= n % c < c,
        (n - 1) / c * c <= n - 1,
{
    assert((n - 1) / c <= n / c) by (nonlinear_arith)
        requires
            c >= 1,
            n > 0,
    ;
    assert(n % c != 0 ==> (n - 1) / c == n / c) by (nonlinear_arith)
        requires
            c >= 1,
            n > 0,
    ;
    assert(n % c == 0 ==> (n - 1) / c + 1 == n / c) by (nonlinear_arith)
        requires
            c >= 1,
            n > 0,
    ;
    assert(n / c * c + n % c == n && 0 <= n % c < c) by (nonlinear_arith)
        requires
            c >= 1,
    ;
    assert((n - 1) / c * c <= n - 1) by (nonlinear_arith)
        requires
            c >= 1,
            n > 0,
    ;
}

/// Where position `i` of a node holding `n` items falls among children of capacity `c`.
proof fn lemma_position(i: int, n: int, c: int)
    requires
        c >= 1,
        0 <= i < n,
    ensures
        i / c <= (n - 1) / c,
        i / c == (n - 1) / c ==> i % c < n - (n - 1) / c * c,
        0 <= i % c < c,
        i / c >= 0,
{
    assert(i / c <= (n - 1) / c) by (nonlinear_arith)
        requires
            c >= 1,
            0 <= i < n,
    ;
    assert(i / c == (n - 1) / c ==> i % c < n - (n - 1) / c * c) by (nonlinear_arith)
        requires
            c >= 1,
            0 <= i < n,
    ;
    assert(0 <= i % c < c && i / c >= 0) by (nonlinear_arith)
        requires
            c >= 1,
            0 <= i,
    ;
}

impl<T> TreeNode<T> {
    /// Append `value` to a node of the given level holding `len` items.
    pub fn push(self, level: usize, len: u64, value: T) -> (r: TreeNode<T>)
        requires
            1 <= level <= max_level(),
            node_ok(self, level as nat, len as nat),
            len < cap(level as nat),
        ensures
            node_ok(r, level as nat, (len + 1) as nat),
            forall|i: nat| i < len ==> #[trigger] item_at(r, level as nat, i) == item_at(self, level as nat, i),
            item_at(r, level as nat, len as nat) == value,
        decreases level,
    {
        match self {
            TreeNode::Leaf(items) => {
                proof {
                    assert(cap(1) == 256) by {
                        reveal_with_fuel(cap, 2);
                    }
                    assert(level == 1);
                    assert(items@.len() == len);
                }
                let mut items = items;
                items.push(value);
                let r = TreeNode::Leaf(items);
                proof {
                    assert(len < 256);
                    assert(items@.len() == len + 1);
                    assert(node_ok(r, 1, (len + 1) as nat));
                }
                r
            },
            TreeNode::Inner(ch) => {
                let ghost old_ch = ch@;
                let c = cap_exec(level - 1);
                let ghost sub: nat = (level as nat - 1) as nat;
                let ghost cl: int = cap(sub) as int;
                let ghost n: int = len as int;
                proof {
                    lemma_cap(level as nat);
                    lemma_cap((level - 1) as nat);
                    if n > 0 {
                        lemma_split_len(n, cl);
                    }
                    assert(n / cl * cl + n % cl == n && 0 <= n % cl < cl && (n / cl < 256)) by (nonlinear_arith)
                        requires
                            cl >= 1,
                            0 <= n < 256 * cl,
                    ;
                }
                let mut ch = ch;
                let k = ch.len();
                if k > 0 && len % c != 0 {
                    let last = ch.pop().unwrap();
                    let ghost last_len: int = n - (k - 1) * cl;
                    proof {
                        assert(n > 0);
                        assert(k == (n - 1) / cl + 1);
                        assert(last == old_ch[k - 1]);
                        assert(last_len == n % cl);
                    }
                    let off = len % c;
                    let last2 = last.push(level - 1, off, value);
                    ch.push(last2);
                    let r = TreeNode::Inner(ch);
                    proof {
                        assert(c == cl);
                        assert(ch@.len() == k);
                        assert(ch@[k - 1] == last2);
                        assert(k == n / cl + 1);
                        assert(off + 1 == n + 1 - (k - 1) * cl);
                        assert(node_ok(last2, sub, (off + 1) as nat));
                        assert(node_ok(ch@[k - 1], sub, (n + 1 - (k - 1) * cl) as nat));
                        assert(self matches TreeNode::Inner(c2) && c2@ == old_ch);
                        assert(sub == (level as nat - 1) as nat);
                        assert forall|i: int| 0 <= i < k - 1 implies #[trigger] node_ok(ch@[i], sub, cap(sub)) by {
                            assert(ch@[i] == old_ch[i]);
                            assert(node_ok(old_ch[i], sub, cap(sub)));
                        }
                        assert forall|i: nat| i < len implies #[trigger] item_at(r, level as nat, i) == item_at(self, level as nat, i) by {
                            lemma_position(i as int, n, cl);
                            let j = (i as int) / cl;
                            let m: nat = i % cap(sub);
                            assert(j == (i / cap(sub)) as int);
                            assert(m as int == (i as int) % cl);
                            assert(item_at(r, level as nat, i) == item_at(ch@[j], sub, m));
                            assert(item_at(self, level as nat, i) == item_at(old_ch[j], sub, m));
                            if j < k - 1 {
                                assert(ch@[j] == old_ch[j]);
                            } else {
                                assert(j == k - 1);
                                assert(m < off);
                                assert(item_at(last2, sub, m) == item_at(last, sub, m));
                            }
                        }
                    }
                    assert(node_ok(r, level as nat, (len + 1) as nat)) by {
                        assert((n + 1 - 1) / cl + 1 == k);
                    }
                    r
                } else {
                    let child = empty_node(level - 1);
                    proof {
                        if k == 0 {
                            assert(n == 0);
                        }
                        assert(n / cl == k && n % cl == 0);
                    }
                    let child2 = child.push(level - 1, 0, value);
                    ch.push(child2);
                    let r = TreeNode::Inner(ch);
                    proof {
                        assert(ch@.len() == k + 1);
                        assert((n + 1 - 1) / cl + 1 == k + 1);
                        assert(n + 1 - k * cl == 1);
                        assert(n == k * cl);
                        assert forall|i: int| 0 <= i < k implies #[trigger] node_ok(ch@[i], sub, cap(sub)) by {
                            assert(ch@[i] == old_ch[i]);
                            if i == k - 1 {
                                assert(node_ok(old_ch[k - 1], sub, (n - (k - 1) * cl) as nat));
                                assert(n - (k - 1) * cl == cl) by (nonlinear_arith)
                                    requires
                                        n == k * cl,
                                ;
                            }
                        }
                        assert forall|i: nat| i < len implies #[trigger] item_at(r, level as nat, i) == item_at(self, level as nat, i) by {
                            lemma_position(i as int, n, cl);
                            let j = (i as int) / cl;
                            assert(ch@[j] == old_ch[j]);
                        }
                    }
                    assert(node_ok(r, level as nat, (len + 1) as nat)) by {
                        assert(ch@[k as int] == child2);
                        assert(node_ok(child2, sub, 1));
                        assert(k + 1 <= 256);
                        assert(n + 1 <= cap(level as nat));
                        let nl: nat = (len + 1) as nat;
                        let lv: nat = level as nat;
                        assert(ch@.len() == (nl as int - 1) / (cap((lv - 1) as nat) as int) + 1);
                        assert(forall|i: int| 0 <= i < ch@.len() - 1 ==> node_ok(#[trigger] ch@[i], (lv - 1) as nat, cap((lv - 1) as nat)));
                        assert(node_ok(ch@[ch@.len() - 1], (lv - 1) as nat, (nl - (ch@.len() - 1) * cap((lv - 1) as nat)) as nat));
                    }
                    r
                }
            },
        }
    }

    /// A copy of the item at position `index` of a node of the given level holding
    /// `len` items.
    pub fn get(&self, level: usize, len: u64, index: u64) -> (r: T)
        where
            T: Clone,
        requires
            1 <= level <= max_level(),
            node_ok(*self, level as nat, len as nat),
            index < len,
        ensures
            cloned::<T>(item_at(*self, level as nat, index as nat), r),
        decreases level,
    {
        match self {
            TreeNode::Leaf(items) => items[index as usize].clone(),
            TreeNode::Inner(ch) => {
                let c = cap_exec(level - 1);
                let ghost cl: int = cap((level - 1) as nat) as int;
                let ghost n: int = len as int;
                proof {
                    lemma_cap((level - 1) as nat);
                    lemma_split_len(n, cl);
                    lemma_position(index as int, n, cl);
                }
                let k = ch.len();
                let j = index / c;
                let off = index % c;
                let child_len: u64 = if j < (k as u64) - 1 {
                    c
                } else {
                    len - ((k as u64) - 1) * c
                };
                let child = &ch[j as usize];
                child.get(level - 1, child_len, off)
            },
        }
    }
}

/// A list that only grows at its end, held as a tree of 256-wide nodes up to eight
/// levels deep.
pub struct AppendTree<T> {
    len: u64,
    level: usize,
    root: TreeNode<T>,
}

impl<T> View for AppendTree<T> {
    type V = Seq<T>;

    /// The items, in the order they were pushed.
    closed spec fn view(&self) -> Seq<T> {
        Seq::new(self.len as nat, |i: int| item_at(self.root, self.level as nat, i as nat))
    }
}

impl<T> AppendTree<T> {
    #[verifier::type_invariant]
    closed spec fn inv(&self) -> bool {
        &&& 1 <= self.level <= max_level()
        &&& node_ok(self.root, self.level as nat, self.len as nat)
    }

    /// An empty list.
    pub fn new() -> (r: Self)
        ensures
            r@ == Seq::<T>::empty(),
    {
        let r = AppendTree { len: 0, level: 1, root: TreeNode::Leaf(Vec::new()) };
        proof {
            assert(r@ =~= Seq::<T>::empty());
        }
        r
    }

    /// The number of items.
    pub fn len(&self) -> (r: u64)
        ensures
            r == self@.len(),
    {
        self.len
    }

    /// Whether there are no items.
    pub fn is_empty(&self) -> (r: bool)
        ensures
            r == (self@.len() == 0),
    {
        self.len == 0
    }

    /// A copy of the item at `index`, if there is one.
    pub fn get(&self, index: u64) -> (r: Option<T>)
        where
            T: Clone,
        ensures
            r is Some == (index < self@.len()),
            r matches Some(x) ==> cloned::<T>(self@[index as int], x),
    {
        proof {
            use_type_invariant(self);
        }
        if index < self.len {
            Some(self.root.get(self.level, self.len, index))
        } else {
            None
        }
    }

    /// Append `value`. Fails, changing nothing, when the list already holds the most
    /// items that its length counter can count.
    pub fn push(&mut self, value: T) -> (r: Result<(), Error>)
        ensures
            old(self)@.len() == u64::MAX ==> r == Err::<(), Error>(Error::Fetch) && final(self)@ == old(self)@,
            old(self)@.len() < u64::MAX ==> r is Ok && final(self)@ == old(self)@.push(value),
    {
        proof {
            use_type_invariant(&*self);
        }
        if self.level == 8 && self.len == u64::MAX {
            return Err(Error::Fetch);
        }
        let mut tree = AppendTree::new();
        std::mem::swap(self, &mut tree);
        proof {
            use_type_invariant(&tree);
        }
        let ghost old_view = tree@;
        let AppendTree { len, level, root } = tree;
        let ghost old_root = root;
        proof {
            assert(old_view == old(self)@);
            lemma_cap(level as nat);
            lemma_cap(8);
            assert(cap(8) == 0x10000000000000000) by {
                reveal_with_fuel(cap, 9);
            }
            if level < 8 {
                lemma_cap_bound(level as nat);
            } else {
                lemma_cap_bound(7);
            }
        }
        let full = level < 8 && len == cap_exec(level);
        let (new_level, base) = if full {
            let mut ch: Vec<TreeNode<T>> = Vec::new();
            ch.push(root);
            let parent = TreeNode::Inner(ch);
            proof {
                let c: int = cap(level as nat) as int;
                lemma_cap((level + 1) as nat);
                assert((len as int - 1) / c == 0) by (nonlinear_arith)
                    requires
                        len == c,
                        c >= 1,
                ;
                assert(ch@[0] == old_root);
                assert(node_ok(parent, (level + 1) as nat, len as nat)) by {
                    let lv: nat = (level + 1) as nat;
                    assert((lv - 1) as nat == level as nat);
                    assert(node_ok(ch@[0], (lv - 1) as nat, (len - 0 * cap((lv - 1) as nat)) as nat));
                }
                assert forall|i: nat| i < len implies #[trigger] item_at(parent, (level + 1) as nat, i) == item_at(old_root, level as nat, i) by {
                    assert(i / cap(level as nat) == 0 && i % cap(level as nat) == i) by (nonlinear_arith)
                        requires
                            i < cap(level as nat),
                    ;
                }
            }
            (level + 1, parent)
        } else {
            (level, root)
        };
        let ghost base_g = base;
        proof {
            assert(node_ok(base, new_level as nat, len as nat));
            assert(len < cap(new_level as nat));
        }
        let root2 = base.push(new_level, len, value);
        proof {
            assert forall|i: nat| i < len implies #[trigger] item_at(root2, new_level as nat, i) == item_at(old_root, level as nat, i) by {
                assert(item_at(root2, new_level as nat, i) == item_at(base_g, new_level as nat, i));
            }
        }
        *self = AppendTree { len: len + 1, level: new_level, root: root2 };
        proof {
            assert(self@ =~= old(self)@.push(value));
        }
        Ok(())
    }
}

} // verus!
