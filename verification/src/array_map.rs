use vstd::prelude::*;
use crate::error::Error;
use crate::input::Input;
use crate::traits::{ToOutput, ParseInline};

verus! {

/// Keys strictly increase along the entries.
pub open spec fn keys_sorted<T>(e: Seq<(u8, T)>) -> bool {
    forall|i: int, j: int| 0 <= i < j < e.len() ==> e[i].0 < e[j].0
}

/// The map that sorted entries stand for.
pub open spec fn entries_map<T>(e: Seq<(u8, T)>) -> Map<u8, T> {
    Map::new(
        |k: u8| exists|i: int| 0 <= i < e.len() && e[i].0 == k,
        |k: u8| e[choose|i: int| 0 <= i < e.len() && e[i].0 == k].1,
    )
}

/// Each entry is in the map with its value.
pub proof fn lemma_entries_map_at<T>(e: Seq<(u8, T)>, i: int)
    requires
        keys_sorted(e),
        0 <= i < e.len(),
    ensures
        entries_map(e).contains_key(e[i].0),
        entries_map(e)[e[i].0] == e[i].1,
{
    let k = e[i].0;
    assert(exists|j: int| 0 <= j < e.len() && e[j].0 == k);
    let j = choose|j: int| 0 <= j < e.len() && e[j].0 == k;
    if j < i {
        assert(e[j].0 < e[i].0);
    } else if j > i {
        assert(e[i].0 < e[j].0);
    }
}

/// `m` with the entries of `e` inserted in order.
pub open spec fn inserted_all<T>(m: Map<u8, T>, e: Seq<(u8, T)>) -> Map<u8, T>
    decreases e.len(),
{
    if e.len() == 0 {
        m
    } else {
        inserted_all(m, e.drop_last()).insert(e.last().0, e.last().1)
    }
}

/// A map from byte keys, stored with its keys in increasing order. Encoded as a
/// 256-bit presence mask (bit `k` is bit `k % 8` of byte `k / 8`) followed by the
/// values in key order.
pub struct ArrayMap<T> {
    entries: Vec<(u8, T)>,
}

impl<T> View for ArrayMap<T> {
    type V = Map<u8, T>;

    closed spec fn view(&self) -> Map<u8, T> {
        entries_map(self.entries@)
    }
}

/// Position of `key` in sorted entries, or where it would go.
fn find_entry<T>(e: &Vec<(u8, T)>, key: u8) -> (r: (usize, bool))
    requires
        keys_sorted(e@),
    ensures
        r.0 <= e@.len(),
        forall|i: int| 0 <= i < r.0 ==> e@[i].0 < key,
        r.1 ==> r.0 < e@.len() && e@[r.0 as int].0 == key,
        !r.1 ==> forall|i: int| r.0 <= i < e@.len() ==> e@[i].0 > key,
        r.1 == entries_map(e@).contains_key(key),
{
    let mut i: usize = 0;
    while i < e.len()
        invariant
            i <= e@.len(),
            keys_sorted(e@),
            forall|j: int| 0 <= j < i ==> e@[j].0 < key,
        decreases e@.len() - i,
    {
        let k = e[i].0;
        if k == key {
            proof {
                lemma_entries_map_at(e@, i as int);
            }
            return (i, true);
        }
        if k > key {
            proof {
                assert forall|j: int| i <= j < e@.len() implies e@[j].0 > key by {
                    if j > i {
                        assert(e@[i as int].0 < e@[j].0);
                    }
                }
                if entries_map(e@).contains_key(key) {
                    let j = choose|j: int| 0 <= j < e@.len() && e@[j].0 == key;
                    assert(false);
                }
            }
            return (i, false);
        }
        i = i + 1;
    }
    proof {
        if entries_map(e@).contains_key(key) {
            let j = choose|j: int| 0 <= j < e@.len() && e@[j].0 == key;
            assert(false);
        }
    }
    (i, false)
}

/// Removing the entry at `i` keeps the entries sorted and removes its key.
proof fn lemma_remove_entry<T>(e: Seq<(u8, T)>, i: int)
    requires
        keys_sorted(e),
        0 <= i < e.len(),
    ensures
        keys_sorted(e.remove(i)),
        entries_map(e.remove(i)) == entries_map(e).remove(e[i].0),
{
    let e2 = e.remove(i);
    let key = e[i].0;
    assert forall|a: int, b: int| 0 <= a < b < e2.len() implies e2[a].0 < e2[b].0 by {
        if b < i {
            assert(e[a].0 < e[b].0);
        } else if a < i {
            assert(e[a].0 < e[b + 1].0);
        } else {
            assert(e[a + 1].0 < e[b + 1].0);
        }
    }
    assert forall|k: u8| #[trigger] entries_map(e2).contains_key(k) == entries_map(e).remove(key).contains_key(k) by {
        if entries_map(e2).contains_key(k) {
            let j = choose|j: int| 0 <= j < e2.len() && e2[j].0 == k;
            if j < i {
                assert(e[j].0 == k);
                assert(e[j].0 < e[i].0);
            } else {
                assert(e[j + 1].0 == k);
                assert(e[i].0 < e[j + 1].0);
            }
        }
        if entries_map(e).remove(key).contains_key(k) {
            let j = choose|j: int| 0 <= j < e.len() && e[j].0 == k;
            if j < i {
                assert(e2[j].0 == k);
            } else {
                assert(j != i);
                assert(e2[j - 1].0 == k);
            }
        }
    }
    assert forall|k: u8| #[trigger] entries_map(e2).contains_key(k) implies entries_map(e2)[k] == entries_map(e).remove(key)[k] by {
        let j = choose|j: int| 0 <= j < e2.len() && e2[j].0 == k;
        lemma_entries_map_at(e2, j);
        if j < i {
            lemma_entries_map_at(e, j);
        } else {
            lemma_entries_map_at(e, j + 1);
        }
    }
    assert(entries_map(e2) =~= entries_map(e).remove(key));
}

/// Set the value at `key` in sorted entries, giving back the one it replaces.
fn entries_insert<T>(e: &mut Vec<(u8, T)>, key: u8, value: T) -> (r: Option<T>)
    requires
        keys_sorted(old(e)@),
    ensures
        keys_sorted(final(e)@),
        entries_map(final(e)@) == entries_map(old(e)@).insert(key, value),
        entries_map(old(e)@).contains_key(key) ==> r == Some(entries_map(old(e)@)[key]),
        !entries_map(old(e)@).contains_key(key) ==> r is None,
{
    let (i, found) = find_entry(e, key);
    let ghost e0 = e@;
    if found {
        let (_, old_value) = e.remove(i);
        e.insert(i, (key, value));
        proof {
            let e2 = e@;
            assert(e2 =~= e0.update(i as int, (key, value)));
            lemma_entries_map_at(e0, i as int);
            assert forall|a: int, b: int| 0 <= a < b < e2.len() implies e2[a].0 < e2[b].0 by {
                assert(e0[a].0 < e0[b].0);
            }
            assert forall|k: u8| #[trigger] entries_map(e2).contains_key(k) == entries_map(e0).insert(key, value).contains_key(k) by {
                if entries_map(e2).contains_key(k) {
                    let j = choose|j: int| 0 <= j < e2.len() && e2[j].0 == k;
                    assert(e0[j].0 == k);
                }
                if entries_map(e0).contains_key(k) {
                    let j = choose|j: int| 0 <= j < e0.len() && e0[j].0 == k;
                    assert(e2[j].0 == k);
                }
                if k == key {
                    assert(e2[i as int].0 == k);
                }
            }
            assert forall|k: u8| #[trigger] entries_map(e2).contains_key(k) implies entries_map(e2)[k] == entries_map(e0).insert(key, value)[k] by {
                let j = choose|j: int| 0 <= j < e2.len() && e2[j].0 == k;
                lemma_entries_map_at(e2, j);
                if k != key {
                    lemma_entries_map_at(e0, j);
                }
            }
            assert(entries_map(e2) =~= entries_map(e0).insert(key, value));
        }
        Some(old_value)
    } else {
        e.insert(i, (key, value));
        proof {
            let e2 = e@;
            assert forall|a: int, b: int| 0 <= a < b < e2.len() implies e2[a].0 < e2[b].0 by {
                if b < i {
                    assert(e0[a].0 < e0[b].0);
                } else if b == i {
                } else if a < i {
                    assert(e2[b] == e0[b - 1]);
                } else if a == i {
                    assert(e2[b] == e0[b - 1]);
                } else {
                    assert(e0[a - 1].0 < e0[b - 1].0);
                }
            }
            assert forall|k: u8| #[trigger] entries_map(e2).contains_key(k) == entries_map(e0).insert(key, value).contains_key(k) by {
                if entries_map(e2).contains_key(k) {
                    let j = choose|j: int| 0 <= j < e2.len() && e2[j].0 == k;
                    if j < i {
                        assert(e0[j].0 == k);
                    } else if j > i {
                        assert(e0[j - 1].0 == k);
                    }
                }
                if entries_map(e0).contains_key(k) {
                    let j = choose|j: int| 0 <= j < e0.len() && e0[j].0 == k;
                    if j < i {
                        assert(e2[j].0 == k);
                    } else {
                        assert(e2[j + 1].0 == k);
                    }
                }
                if k == key {
                    assert(e2[i as int].0 == k);
                }
            }
            assert forall|k: u8| #[trigger] entries_map(e2).contains_key(k) implies entries_map(e2)[k] == entries_map(e0).insert(key, value)[k] by {
                let j = choose|j: int| 0 <= j < e2.len() && e2[j].0 == k;
                lemma_entries_map_at(e2, j);
                if j < i {
                    lemma_entries_map_at(e0, j);
                } else if j > i {
                    lemma_entries_map_at(e0, j - 1);
                }
            }
            assert(entries_map(e2) =~= entries_map(e0).insert(key, value));
        }
        None
    }
}

impl<T> ArrayMap<T> {
    /// The entries are sorted by key.
    #[verifier::type_invariant]
    pub closed spec fn wf(&self) -> bool {
        keys_sorted(self.entries@)
    }

    /// The keys, in increasing order.
    pub closed spec fn key_seq(&self) -> Seq<u8> {
        self.entries@.map_values(|p: (u8, T)| p.0)
    }

    /// The key sequence is increasing and holds exactly the map's keys.
    pub proof fn lemma_key_seq(&self)
        requires
            self.wf(),
        ensures
            forall|i: int, j: int| 0 <= i < j < self.key_seq().len() ==> self.key_seq()[i] < self.key_seq()[j],
            forall|k: u8| self@.contains_key(k) <==> self.key_seq().contains(k),
            self.key_seq().len() == self@.dom().len(),
            self@.dom().finite(),
    {
        let ks = self.key_seq();
        assert forall|k: u8| self@.contains_key(k) <==> ks.contains(k) by {
            if self@.contains_key(k) {
                let i = choose|i: int| 0 <= i < self.entries@.len() && self.entries@[i].0 == k;
                assert(ks[i] == k);
            }
            if ks.contains(k) {
                let i = choose|i: int| 0 <= i < ks.len() && ks[i] == k;
                assert(self.entries@[i].0 == k);
            }
        }
        lemma_sorted_set_len(ks);
        assert(self@.dom() =~= ks.to_set());
    }

    /// An empty map.
    pub fn new() -> (r: Self)
        ensures
            r@ == Map::<u8, T>::empty(),
    {
        let r = ArrayMap { entries: Vec::new() };
        proof {
            assert(r@ =~= Map::<u8, T>::empty());
        }
        r
    }

    /// Number of keys.
    pub fn len(&self) -> (n: usize)
        ensures
            n == self@.len(),
    {
        proof {
            use_type_invariant(self);
            self.lemma_key_seq();
        }
        self.entries.len()
    }

    /// Whether there are no keys.
    pub fn is_empty(&self) -> (r: bool)
        ensures
            r == (self@ == Map::<u8, T>::empty()),
    {
        proof {
            use_type_invariant(self);
            self.lemma_key_seq();
            if self.entries@.len() > 0 {
                lemma_entries_map_at(self.entries@, 0);
                assert(!(self@ =~= Map::<u8, T>::empty()));
            } else {
                assert(self@ =~= Map::<u8, T>::empty());
            }
        }
        self.entries.len() == 0
    }

    /// The value at `key`.
    pub fn get(&self, key: u8) -> (r: Option<&T>)
        ensures
            self@.contains_key(key) ==> r == Some(&self@[key]),
            !self@.contains_key(key) ==> r is None,
    {
        proof {
            use_type_invariant(self);
        }
        let (i, found) = find_entry(&self.entries, key);
        if found {
            proof {
                lemma_entries_map_at(self.entries@, i as int);
            }
            Some(&self.entries[i].1)
        } else {
            None
        }
    }

    /// Whether `key` is present.
    pub fn contains(&self, key: u8) -> (r: bool)
        ensures
            r == self@.contains_key(key),
    {
        proof {
            use_type_invariant(self);
        }
        find_entry(&self.entries, key).1
    }

    /// Set the value at `key`, giving back the one it replaces.
    pub fn insert(&mut self, key: u8, value: T) -> (r: Option<T>)
        ensures
            final(self)@ == old(self)@.insert(key, value),
            old(self)@.contains_key(key) ==> r == Some(old(self)@[key]),
            !old(self)@.contains_key(key) ==> r is None,
    {
        proof {
            use_type_invariant(&*self);
        }
        let mut e = Vec::new();
        std::mem::swap(&mut e, &mut self.entries);
        let r = entries_insert(&mut e, key, value);
        self.entries = e;
        r
    }

    /// Remove `key`, giving back its value.
    pub fn remove(&mut self, key: u8) -> (r: Option<T>)
        ensures
            final(self)@ == old(self)@.remove(key),
            old(self)@.contains_key(key) ==> r == Some(old(self)@[key]),
            !old(self)@.contains_key(key) ==> r is None,
    {
        proof {
            use_type_invariant(&*self);
        }
        let mut e = Vec::new();
        std::mem::swap(&mut e, &mut self.entries);
        let ghost e0 = e@;
        let (i, found) = find_entry(&e, key);
        if found {
            let (_, v) = e.remove(i);
            proof {
                lemma_entries_map_at(e0, i as int);
                lemma_remove_entry(e0, i as int);
            }
            self.entries = e;
            Some(v)
        } else {
            self.entries = e;
            proof {
                assert(self@ =~= old(self)@.remove(key));
            }
            None
        }
    }

    /// Remove the entry with the smallest key.
    pub fn pop_first(&mut self) -> (r: Option<(u8, T)>)
        ensures
            old(self)@.len() == 0 ==> r is None && final(self)@ == old(self)@,
            old(self)@.len() > 0 ==> (r matches Some((k, v)) && old(self)@.contains_key(k) && v == old(self)@[k]
                && (forall|j: u8| old(self)@.contains_key(j) ==> k <= j)
                && final(self)@ == old(self)@.remove(k)),
    {
        proof {
            use_type_invariant(&*self);
            self.lemma_key_seq();
        }
        if self.entries.len() == 0 {
            return None;
        }
        let mut e = Vec::new();
        std::mem::swap(&mut e, &mut self.entries);
        let ghost e0 = e@;
        let (k, v) = e.remove(0);
        proof {
            lemma_entries_map_at(e0, 0);
            lemma_remove_entry(e0, 0);
            assert forall|j: u8| entries_map(e0).contains_key(j) implies k <= j by {
                let a = choose|a: int| 0 <= a < e0.len() && e0[a].0 == j;
                if a > 0 {
                    assert(e0[0].0 < e0[a].0);
                }
            }
        }
        self.entries = e;
        Some((k, v))
    }

    /// Move every entry of `other` into `self`; `other`'s values win on shared keys.
    pub fn append(&mut self, other: &mut Self)
        ensures
            final(self)@ == old(self)@.union_prefer_right(old(other)@),
            final(other)@ == Map::<u8, T>::empty(),
    {
        loop
            invariant
                old(self)@.union_prefer_right(old(other)@) == self@.union_prefer_right(other@),
            decreases other@.len(),
        {
            proof {
                use_type_invariant(&*other);
                other.lemma_key_seq();
            }
            let ghost before_self = self@;
            let ghost before_other = other@;
            match other.pop_first() {
                Some((k, v)) => {
                    self.insert(k, v);
                    proof {
                        use_type_invariant(&*other);
                        other.lemma_key_seq();
                        assert(before_self.union_prefer_right(before_other) =~= self@.union_prefer_right(other@));
                    }
                },
                None => {
                    proof {
                        assert(other@ =~= Map::<u8, T>::empty());
                        assert(self@.union_prefer_right(other@) =~= self@);
                    }
                    return;
                },
            }
        }
    }
}

impl<T> ArrayMap<T> {
    /// The entries, in increasing key order.
    pub closed spec fn entry_seq(&self) -> Seq<(u8, T)> {
        self.entries@
    }

    /// The entry sequence is sorted by key and lists exactly the entries of the map.
    pub proof fn lemma_entry_seq(&self)
        requires
            self.wf(),
        ensures
            keys_sorted(self.entry_seq()),
            forall|i: int| 0 <= i < self.entry_seq().len() ==> self@.contains_key(#[trigger] self.entry_seq()[i].0)
                && self@[self.entry_seq()[i].0] == self.entry_seq()[i].1,
            forall|k: u8| #[trigger] self@.contains_key(k) ==> exists|i: int| 0 <= i < self.entry_seq().len()
                && self.entry_seq()[i].0 == k,
    {
        assert forall|i: int| 0 <= i < self.entry_seq().len() implies self@.contains_key(#[trigger] self.entry_seq()[i].0)
            && self@[self.entry_seq()[i].0] == self.entry_seq()[i].1 by {
            lemma_entries_map_at(self.entries@, i);
        }
        assert forall|k: u8| #[trigger] self@.contains_key(k) implies exists|i: int| 0 <= i < self.entry_seq().len()
            && self.entry_seq()[i].0 == k by {
            assert(entries_map(self.entries@).dom().contains(k));
            let i = choose|i: int| 0 <= i < self.entries@.len() && self.entries@[i].0 == k;
            assert(self.entry_seq()[i].0 == k);
        }
    }

    /// A value held by the map is smaller than the map (for recursion over maps of
    /// nodes).
    pub proof fn lemma_value_smaller(&self, k: u8)
        requires
            self.wf(),
            self@.contains_key(k),
        ensures
            decreases_to!(*self => self@[k]),
    {
        assert(entries_map(self.entries@).dom().contains(k));
        let e = self.entries@;
        let i = choose|i: int| 0 <= i < e.len() && e[i].0 == k;
        lemma_entries_map_at(e, i);
        assert(self@[k] == e[i].1);
        assert(decreases_to!(*self => self.entries));
        assert(decreases_to!(self.entries => self.entries@));
        assert(decreases_to!(self.entries@ => self.entries@[i]));
        assert(decreases_to!(self.entries@[i] => self.entries@[i].1));
    }

    /// Go through the entries in increasing key order.
    pub fn iter(&self) -> (r: Entries<'_, T>)
        ensures
            r.rest() == self.entry_seq(),
    {
        let r = Entries { entries: &self.entries, pos: 0, end: self.entries.len() };
        proof {
            assert(r.rest() =~= self.entry_seq());
        }
        r
    }

    /// Go through the entries with keys from `start` to `end` (both included), in
    /// increasing key order.
    pub fn range(&self, start: u8, end: u8) -> (r: Range<'_, T>)
        ensures
            keys_sorted(r.rest()),
            forall|x: (u8, T)| r.rest().contains(x) <==> self.entry_seq().contains(x) && start <= x.0 <= end,
    {
        proof {
            use_type_invariant(self);
        }
        let (i, _) = find_entry(&self.entries, start);
        let mut j = i;
        while j < self.entries.len() && self.entries[j].0 <= end
            invariant
                i <= j <= self.entries@.len(),
                forall|t: int| i <= t < j ==> self.entries@[t].0 <= end,
            decreases self.entries@.len() - j,
        {
            j = j + 1;
        }
        let r = Range { inner: Entries { entries: &self.entries, pos: i, end: j } };
        proof {
            let e = self.entries@;
            assert(keys_sorted(e));
            assert forall|x: (u8, T)| r.rest().contains(x) <==> self.entry_seq().contains(x) && start <= x.0 <= end by {
                if r.rest().contains(x) {
                    let t = choose|t: int| 0 <= t < r.rest().len() && r.rest()[t] == x;
                    assert(e[i + t] == x);
                    if i > 0 {
                        assert(e[i - 1].0 < start);
                        assert(e[i - 1].0 < e[i + t].0);
                    }
                }
                if self.entry_seq().contains(x) && start <= x.0 <= end {
                    let t = choose|t: int| 0 <= t < e.len() && e[t] == x;
                    if t < i {
                        assert(e[t].0 < start);
                    } else if t >= j {
                        assert(j < e.len());
                        assert(e[j as int].0 > end);
                        if t > j {
                            assert(e[j as int].0 < e[t].0);
                        }
                    } else {
                        assert(r.rest()[t - i] == x);
                    }
                }
            }
        }
        r
    }

    /// Take the entries out, in increasing key order.
    pub fn into_iter(self) -> (r: IntoEntries<T>)
        ensures
            r.rest() == self.entry_seq(),
    {
        let mut entries = self.entries;
        let ghost all = entries@;
        let mut rev: Vec<(u8, T)> = Vec::new();
        while entries.len() > 0
            invariant
                all == entries@ + rev@.reverse(),
            decreases entries@.len(),
        {
            let ghost before = entries@;
            let ghost rbefore = rev@;
            let x = entries.pop().unwrap();
            rev.push(x);
            proof {
                assert(before =~= entries@.push(x));
                assert(rev@.reverse() =~= seq![x] + rbefore.reverse());
                assert(all =~= entries@ + rev@.reverse());
            }
        }
        proof {
            assert(all =~= rev@.reverse());
        }
        IntoEntries { rev }
    }

    /// A map of the given entries, inserted in order (a later entry for a key wins).
    pub fn from_entries(entries: Vec<(u8, T)>) -> (r: Self)
        ensures
            r@ == inserted_all(Map::<u8, T>::empty(), entries@),
    {
        let ghost all = entries@;
        let mut rest = entries;
        let mut rev: Vec<(u8, T)> = Vec::new();
        while rest.len() > 0
            invariant
                all == rest@ + rev@.reverse(),
            decreases rest@.len(),
        {
            let ghost before = rest@;
            let ghost rbefore = rev@;
            let x = rest.pop().unwrap();
            rev.push(x);
            proof {
                assert(before =~= rest@.push(x));
                assert(rev@.reverse() =~= seq![x] + rbefore.reverse());
                assert(all =~= rest@ + rev@.reverse());
            }
        }
        let mut r = ArrayMap::new();
        proof {
            assert(all =~= rev@.reverse());
            assert(all.take(0) =~= Seq::<(u8, T)>::empty());
        }
        let ghost mut done: int = 0;
        while rev.len() > 0
            invariant
                0 <= done <= all.len(),
                all.skip(done) == rev@.reverse(),
                r@ == inserted_all(Map::<u8, T>::empty(), all.take(done)),
            decreases rev@.len(),
        {
            let ghost before = rev@;
            let (k, v) = rev.pop().unwrap();
            proof {
                assert(before =~= rev@.push((k, v)));
                assert(before.reverse() =~= seq![(k, v)] + rev@.reverse());
                assert(all[done] == (k, v)) by {
                    assert(all.skip(done)[0] == all[done]);
                }
                assert(all.take(done + 1) =~= all.take(done).push((k, v)));
                assert(all.skip(done + 1) =~= all.skip(done).drop_first());
            }
            r.insert(k, v);
            proof {
                let t = all.take(done + 1);
                assert(t.drop_last() =~= all.take(done));
                assert(t.last() == (k, v));
                done = done + 1;
            }
        }
        proof {
            assert(all.take(done) =~= all);
        }
        r
    }

    /// The same keys, each value passed through `f`.
    pub fn map<U, F: Fn(T) -> U>(self, f: F) -> (r: ArrayMap<U>)
        requires
            forall|v: T| #[trigger] f.requires((v,)),
        ensures
            r@.dom() == self@.dom(),
            forall|k: u8| #[trigger] self@.contains_key(k) ==> f.ensures((self@[k],), r@[k]),
    {
        proof {
            use_type_invariant(&self);
        }
        let ghost e0 = self.entries@;
        let ghost v0 = self@;
        let mut e = self.entries;
        let mut out: Vec<(u8, U)> = Vec::new();
        while e.len() > 0
            invariant
                forall|v: T| #[trigger] f.requires((v,)),
                keys_sorted(e0),
                out@.len() + e@.len() == e0.len(),
                e@ == e0.skip(out@.len() as int),
                forall|i: int| 0 <= i < out@.len() ==> #[trigger] out@[i].0 == e0[i].0 && f.ensures((e0[i].1,), out@[i].1),
            decreases e@.len(),
        {
            let ghost j = out@.len() as int;
            let (k, v) = e.remove(0);
            proof {
                assert(e0[j] == (k, v));
                assert(e@ =~= e0.skip(j + 1));
            }
            let u = f(v);
            out.push((k, u));
        }
        proof {
            assert forall|a: int, b: int| 0 <= a < b < out@.len() implies out@[a].0 < out@[b].0 by {
                assert(out@[a].0 == e0[a].0);
                assert(out@[b].0 == e0[b].0);
            }
        }
        let r = ArrayMap { entries: out };
        proof {
            assert forall|k: u8| r@.contains_key(k) == v0.contains_key(k) by {
                if r@.contains_key(k) {
                    let i = choose|i: int| 0 <= i < out@.len() && out@[i].0 == k;
                    assert(e0[i].0 == k);
                }
                if v0.contains_key(k) {
                    let i = choose|i: int| 0 <= i < e0.len() && e0[i].0 == k;
                    assert(out@[i].0 == k);
                }
            }
            assert(r@.dom() =~= v0.dom());
            assert forall|k: u8| #[trigger] v0.contains_key(k) implies f.ensures((v0[k],), r@[k]) by {
                let i = choose|i: int| 0 <= i < e0.len() && e0[i].0 == k;
                lemma_entries_map_at(e0, i);
                lemma_entries_map_at(out@, i);
            }
        }
        r
    }

    /// Go through the entries in increasing key order, handing each key and value to
    /// `f`, which gives back whether to keep the entry and the value to keep.
    pub fn retain<F: Fn(u8, T) -> (bool, T)>(&mut self, f: F)
        requires
            forall|k: u8, v: T| #[trigger] f.requires((k, v)),
        ensures
            forall|k: u8| #[trigger] final(self)@.contains_key(k) ==> old(self)@.contains_key(k)
                && f.ensures((k, old(self)@[k]), (true, final(self)@[k])),
            forall|k: u8| #[trigger] old(self)@.contains_key(k) && !final(self)@.contains_key(k)
                ==> exists|v: T| f.ensures((k, old(self)@[k]), (false, v)),
    {
        proof {
            use_type_invariant(&*self);
        }
        let ghost e0 = self.entries@;
        let mut e: Vec<(u8, T)> = Vec::new();
        std::mem::swap(&mut e, &mut self.entries);
        let mut out: Vec<(u8, T)> = Vec::new();
        let ghost mut done: int = 0;
        while e.len() > 0
            invariant
                forall|k: u8, v: T| #[trigger] f.requires((k, v)),
                keys_sorted(e0),
                keys_sorted(out@),
                0 <= done <= e0.len(),
                e@ == e0.skip(done),
                forall|a: int, j: int| 0 <= a < out@.len() && done <= j < e0.len() ==> #[trigger] out@[a].0 < #[trigger] e0[j].0,
                forall|a: int| 0 <= a < out@.len() ==> exists|j: int| 0 <= j < done && e0[j].0 == #[trigger] out@[a].0
                    && f.ensures((e0[j].0, e0[j].1), (true, out@[a].1)),
                forall|j: int| 0 <= j < done ==> (!#[trigger] entries_map(out@).contains_key(e0[j].0)
                    ==> exists|v: T| f.ensures((e0[j].0, e0[j].1), (false, v))),
            decreases e@.len(),
        {
            let ghost j = done;
            let ghost before = out@;
            let (k, v) = e.remove(0);
            proof {
                assert(e0[j] == (k, v));
                assert(e@ =~= e0.skip(j + 1));
            }
            let (keep, v2) = f(k, v);
            if keep {
                out.push((k, v2));
                proof {
                    assert forall|a: int, b: int| 0 <= a < b < out@.len() implies out@[a].0 < out@[b].0 by {
                        if b < before.len() {
                            assert(before[a].0 < before[b].0);
                        } else {
                            assert(before[a].0 < e0[j].0);
                        }
                    }
                    assert forall|a: int| 0 <= a < out@.len() implies exists|i: int| 0 <= i < j + 1 && e0[i].0 == #[trigger] out@[a].0
                        && f.ensures((e0[i].0, e0[i].1), (true, out@[a].1)) by {
                        if a < before.len() {
                            assert(before[a] == out@[a]);
                        } else {
                            assert(e0[j].0 == out@[a].0);
                        }
                    }
                    assert forall|i: int| 0 <= i < j + 1 && !#[trigger] entries_map(out@).contains_key(e0[i].0)
                        implies exists|v: T| f.ensures((e0[i].0, e0[i].1), (false, v)) by {
                        if i == j {
                            lemma_entries_map_at(out@, before.len() as int);
                        } else if entries_map(before).contains_key(e0[i].0) {
                            let a = choose|a: int| 0 <= a < before.len() && before[a].0 == e0[i].0;
                            lemma_entries_map_at(out@, a);
                        }
                    }
                }
            } else {
                proof {
                    assert forall|i: int| 0 <= i < j + 1 && !#[trigger] entries_map(out@).contains_key(e0[i].0)
                        implies exists|v: T| f.ensures((e0[i].0, e0[i].1), (false, v)) by {
                        if i == j {
                            assert(f.ensures((e0[j].0, e0[j].1), (false, v2)));
                        }
                    }
                }
            }
            proof {
                done = j + 1;
            }
        }
        self.entries = out;
        proof {
            assert(done == e0.len());
            assert forall|k: u8| #[trigger] self@.contains_key(k) implies old(self)@.contains_key(k)
                && f.ensures((k, old(self)@[k]), (true, self@[k])) by {
                let a = choose|a: int| 0 <= a < out@.len() && out@[a].0 == k;
                lemma_entries_map_at(out@, a);
                let i = choose|i: int| 0 <= i < done && e0[i].0 == out@[a].0
                    && f.ensures((e0[i].0, e0[i].1), (true, out@[a].1));
                lemma_entries_map_at(e0, i);
            }
            assert forall|k: u8| #[trigger] old(self)@.contains_key(k) && !self@.contains_key(k)
                implies exists|v: T| f.ensures((k, old(self)@[k]), (false, v)) by {
                let i = choose|i: int| 0 <= i < e0.len() && e0[i].0 == k;
                lemma_entries_map_at(e0, i);
            }
        }
    }
}

/// Entries of a map being gone through in increasing key order.
pub struct Entries<'a, T> {
    entries: &'a Vec<(u8, T)>,
    pos: usize,
    end: usize,
}

impl<'a, T> Entries<'a, T> {
    #[verifier::type_invariant]
    closed spec fn inv(&self) -> bool {
        self.pos <= self.end <= self.entries@.len()
    }

    /// The entries not yet given out, in order.
    pub closed spec fn rest(&self) -> Seq<(u8, T)> {
        self.entries@.subrange(self.pos as int, self.end as int)
    }

    /// The next entry, if any is left.
    pub fn next(&mut self) -> (r: Option<(u8, &'a T)>)
        ensures
            old(self).rest().len() == 0 ==> r is None && final(self).rest() == old(self).rest(),
            old(self).rest().len() > 0 ==> r == Some((old(self).rest()[0].0, &old(self).rest()[0].1))
                && final(self).rest() == old(self).rest().drop_first(),
    {
        proof {
            use_type_invariant(&*self);
        }
        if self.pos < self.end {
            let e = &self.entries[self.pos];
            self.pos = self.pos + 1;
            proof {
                assert(self.rest() =~= old(self).rest().drop_first());
            }
            Some((e.0, &e.1))
        } else {
            None
        }
    }
}

/// Entries of a map with keys in a range, being gone through in increasing key order.
pub struct Range<'a, T> {
    inner: Entries<'a, T>,
}

impl<'a, T> Range<'a, T> {
    /// The entries not yet given out, in order.
    pub closed spec fn rest(&self) -> Seq<(u8, T)> {
        self.inner.rest()
    }

    /// The next entry, if any is left.
    pub fn next(&mut self) -> (r: Option<(u8, &'a T)>)
        ensures
            old(self).rest().len() == 0 ==> r is None && final(self).rest() == old(self).rest(),
            old(self).rest().len() > 0 ==> r == Some((old(self).rest()[0].0, &old(self).rest()[0].1))
                && final(self).rest() == old(self).rest().drop_first(),
    {
        self.inner.next()
    }
}

/// The entries of a map taken out in increasing key order.
pub struct IntoEntries<T> {
    rev: Vec<(u8, T)>,
}

impl<T> IntoEntries<T> {
    /// The entries not yet taken, in order.
    pub closed spec fn rest(&self) -> Seq<(u8, T)> {
        self.rev@.reverse()
    }

    /// The next entry, if any is left.
    pub fn next(&mut self) -> (r: Option<(u8, T)>)
        ensures
            old(self).rest().len() == 0 ==> r is None && final(self).rest() == old(self).rest(),
            old(self).rest().len() > 0 ==> r == Some(old(self).rest()[0]) && final(self).rest() == old(self).rest().drop_first(),
    {
        let ghost before = self.rev@;
        match self.rev.pop() {
            Some(x) => {
                proof {
                    assert(before =~= self.rev@.push(x));
                    assert(before.reverse() =~= seq![x] + self.rev@.reverse());
                    assert(before.reverse().drop_first() =~= self.rev@.reverse());
                }
                Some(x)
            },
            None => {
                proof {
                    assert(before.reverse().len() == 0);
                }
                None
            },
        }
    }
}

/// A strictly increasing byte sequence has as many elements as its set.
pub proof fn lemma_sorted_set_len(s: Seq<u8>)
    requires
        forall|i: int, j: int| 0 <= i < j < s.len() ==> s[i] < s[j],
    ensures
        s.to_set().len() == s.len(),
        s.to_set().finite(),
    decreases s.len(),
{
    if s.len() == 0 {
        assert(s.to_set() =~= Set::<u8>::empty());
    } else {
        let t = s.drop_last();
        lemma_sorted_set_len(t);
        assert forall|x: u8| #[trigger] s.to_set().contains(x) == t.to_set().insert(s.last()).contains(x) by {
            if s.contains(x) {
                let i = choose|i: int| 0 <= i < s.len() && s[i] == x;
                if i < s.len() - 1 {
                    assert(t[i] == x);
                }
            }
            if t.contains(x) {
                let i = choose|i: int| 0 <= i < t.len() && t[i] == x;
                assert(s[i] == x);
            }
            if x == s.last() {
                assert(s[s.len() - 1] == x);
            }
        }
        assert(s.to_set() =~= t.to_set().insert(s.last()));
        assert(!t.to_set().contains(s.last())) by {
            if t.to_set().contains(s.last()) {
                let i = choose|i: int| 0 <= i < t.len() && t[i] == s.last();
                assert(s[i] < s[s.len() - 1]);
            }
        }
    }
}

} // verus!

verus! {

/// Byte `i` of the presence mask of `dom`: bit `t` is set when key `8 * i + t` is present.
pub open spec fn mask_byte(dom: Set<u8>, i: u8) -> u8 {
    (if dom.contains(i << 3u8) { 1u8 } else { 0u8 })
    | (if dom.contains((i << 3u8) | 1u8) { 2u8 } else { 0u8 })
    | (if dom.contains((i << 3u8) | 2u8) { 4u8 } else { 0u8 })
    | (if dom.contains((i << 3u8) | 3u8) { 8u8 } else { 0u8 })
    | (if dom.contains((i << 3u8) | 4u8) { 16u8 } else { 0u8 })
    | (if dom.contains((i << 3u8) | 5u8) { 32u8 } else { 0u8 })
    | (if dom.contains((i << 3u8) | 6u8) { 64u8 } else { 0u8 })
    | (if dom.contains((i << 3u8) | 7u8) { 128u8 } else { 0u8 })
}

/// The 32-byte presence mask of a key set.
pub open spec fn key_mask(dom: Set<u8>) -> Seq<u8> {
    Seq::new(32, |i: int| mask_byte(dom, i as u8))
}

/// The key set that a 32-byte presence mask stands for.
pub open spec fn mask_keys(b: Seq<u8>) -> Set<u8> {
    Set::new(|k: u8| (b[(k >> 3u8) as int] >> (k & 7u8)) & 1u8 == 1u8)
}

/// The keys of `dom` from `k` on, in increasing order.
pub open spec fn keys_from(dom: Set<u8>, k: nat) -> Seq<u8>
    decreases 256 - k,
{
    if k >= 256 {
        Seq::empty()
    } else if dom.contains(k as u8) {
        seq![k as u8] + keys_from(dom, k + 1)
    } else {
        keys_from(dom, k + 1)
    }
}

proof fn lemma_byte_bits(b: u8)
    ensures
        b == (if (b >> 0u8) & 1u8 == 1u8 { 1u8 } else { 0u8 })
            | (if (b >> 1u8) & 1u8 == 1u8 { 2u8 } else { 0u8 })
            | (if (b >> 2u8) & 1u8 == 1u8 { 4u8 } else { 0u8 })
            | (if (b >> 3u8) & 1u8 == 1u8 { 8u8 } else { 0u8 })
            | (if (b >> 4u8) & 1u8 == 1u8 { 16u8 } else { 0u8 })
            | (if (b >> 5u8) & 1u8 == 1u8 { 32u8 } else { 0u8 })
            | (if (b >> 6u8) & 1u8 == 1u8 { 64u8 } else { 0u8 })
            | (if (b >> 7u8) & 1u8 == 1u8 { 128u8 } else { 0u8 }),
{
    assert(b == (if (b >> 0u8) & 1u8 == 1u8 { 1u8 } else { 0u8 })
        | (if (b >> 1u8) & 1u8 == 1u8 { 2u8 } else { 0u8 })
        | (if (b >> 2u8) & 1u8 == 1u8 { 4u8 } else { 0u8 })
        | (if (b >> 3u8) & 1u8 == 1u8 { 8u8 } else { 0u8 })
        | (if (b >> 4u8) & 1u8 == 1u8 { 16u8 } else { 0u8 })
        | (if (b >> 5u8) & 1u8 == 1u8 { 32u8 } else { 0u8 })
        | (if (b >> 6u8) & 1u8 == 1u8 { 64u8 } else { 0u8 })
        | (if (b >> 7u8) & 1u8 == 1u8 { 128u8 } else { 0u8 })) by (bit_vector);
}

proof fn lemma_bit_of_byte(c0: bool, c1: bool, c2: bool, c3: bool, c4: bool, c5: bool, c6: bool, c7: bool, j: u8)
    requires
        j < 8,
    ensures
        ((((if c0 { 1u8 } else { 0u8 }) | (if c1 { 2u8 } else { 0u8 }) | (if c2 { 4u8 } else { 0u8 })
            | (if c3 { 8u8 } else { 0u8 }) | (if c4 { 16u8 } else { 0u8 }) | (if c5 { 32u8 } else { 0u8 })
            | (if c6 { 64u8 } else { 0u8 }) | (if c7 { 128u8 } else { 0u8 })) >> j) & 1u8 == 1u8) <==> (
            (j == 0 && c0) || (j == 1 && c1) || (j == 2 && c2) || (j == 3 && c3) || (j == 4 && c4)
                || (j == 5 && c5) || (j == 6 && c6) || (j == 7 && c7)),
{
    assert(j < 8 ==> (((((if c0 { 1u8 } else { 0u8 }) | (if c1 { 2u8 } else { 0u8 }) | (if c2 { 4u8 } else { 0u8 })
        | (if c3 { 8u8 } else { 0u8 }) | (if c4 { 16u8 } else { 0u8 }) | (if c5 { 32u8 } else { 0u8 })
        | (if c6 { 64u8 } else { 0u8 }) | (if c7 { 128u8 } else { 0u8 })) >> j) & 1u8 == 1u8) <==> (
        (j == 0 && c0) || (j == 1 && c1) || (j == 2 && c2) || (j == 3 && c3) || (j == 4 && c4)
            || (j == 5 && c5) || (j == 6 && c6) || (j == 7 && c7)))) by (bit_vector);
}

proof fn lemma_key_split(k: u8)
    ensures
        (k >> 3u8) < 32,
        (k & 7u8) < 8,
        ((k >> 3u8) << 3u8) | (k & 7u8) == k,
        (k & 7u8) == 0 ==> ((k >> 3u8) << 3u8) == k,
{
    assert((k >> 3u8) < 32) by (bit_vector);
    assert((k & 7u8) < 8) by (bit_vector);
    assert(((k >> 3u8) << 3u8) | (k & 7u8) == k) by (bit_vector);
    assert((k & 7u8) == 0 ==> ((k >> 3u8) << 3u8) == k) by (bit_vector);
}

/// Reading keys back from the mask of a key set gives the set.
pub proof fn lemma_mask_keys_of_key_mask(dom: Set<u8>)
    ensures
        mask_keys(key_mask(dom)) == dom,
{
    assert forall|k: u8| #[trigger] mask_keys(key_mask(dom)).contains(k) == dom.contains(k) by {
        lemma_key_split(k);
        let i = k >> 3u8;
        let j = k & 7u8;
        assert(key_mask(dom)[i as int] == mask_byte(dom, i));
        lemma_bit_of_byte(
            dom.contains(i << 3u8), dom.contains((i << 3u8) | 1u8), dom.contains((i << 3u8) | 2u8),
            dom.contains((i << 3u8) | 3u8), dom.contains((i << 3u8) | 4u8), dom.contains((i << 3u8) | 5u8),
            dom.contains((i << 3u8) | 6u8), dom.contains((i << 3u8) | 7u8), j,
        );
    }
    assert(mask_keys(key_mask(dom)) =~= dom);
}

/// The mask of the keys read from a mask is that mask.
pub proof fn lemma_key_mask_of_mask_keys(b: Seq<u8>)
    requires
        b.len() == 32,
    ensures
        key_mask(mask_keys(b)) == b,
{
    assert forall|i: int| 0 <= i < 32 implies #[trigger] key_mask(mask_keys(b))[i] == b[i] by {
        let iu = i as u8;
        let x = b[i];
        lemma_byte_bits(x);
        assert forall|t: u8| t < 8 implies #[trigger] mask_keys(b).contains((iu << 3u8) | t) == ((x >> t) & 1u8 == 1u8) by {
            let k = (iu << 3u8) | t;
            assert(iu < 32);
            assert(iu < 32 && t < 8 ==> ((iu << 3u8) | t) >> 3u8 == iu && ((iu << 3u8) | t) & 7u8 == t) by (bit_vector);
        }
        assert(mask_keys(b).contains(iu << 3u8) == ((x >> 0u8) & 1u8 == 1u8)) by {
            assert((iu << 3u8) | 0u8 == iu << 3u8) by (bit_vector);
        }
        assert(mask_keys(b).contains((iu << 3u8) | 1u8) == ((x >> 1u8) & 1u8 == 1u8));
        assert(mask_keys(b).contains((iu << 3u8) | 2u8) == ((x >> 2u8) & 1u8 == 1u8));
        assert(mask_keys(b).contains((iu << 3u8) | 3u8) == ((x >> 3u8) & 1u8 == 1u8));
        assert(mask_keys(b).contains((iu << 3u8) | 4u8) == ((x >> 4u8) & 1u8 == 1u8));
        assert(mask_keys(b).contains((iu << 3u8) | 5u8) == ((x >> 5u8) & 1u8 == 1u8));
        assert(mask_keys(b).contains((iu << 3u8) | 6u8) == ((x >> 6u8) & 1u8 == 1u8));
        assert(mask_keys(b).contains((iu << 3u8) | 7u8) == ((x >> 7u8) & 1u8 == 1u8));
    }
    assert(key_mask(mask_keys(b)) =~= b);
}

/// `keys_from` is increasing, starts at `k` or later, and holds exactly the keys of `dom` from `k` on.
pub proof fn lemma_keys_from(dom: Set<u8>, k: nat)
    ensures
        forall|i: int, j: int| 0 <= i < j < keys_from(dom, k).len() ==> keys_from(dom, k)[i] < keys_from(dom, k)[j],
        forall|i: int| 0 <= i < keys_from(dom, k).len() ==> keys_from(dom, k)[i] >= k,
        forall|x: u8| keys_from(dom, k).contains(x) <==> dom.contains(x) && x >= k,
    decreases 256 - k,
{
    if k < 256 {
        lemma_keys_from(dom, k + 1);
        let r = keys_from(dom, k + 1);
        if dom.contains(k as u8) {
            let s = seq![k as u8] + r;
            assert forall|x: u8| s.contains(x) <==> dom.contains(x) && x >= k by {
                if s.contains(x) {
                    let i = choose|i: int| 0 <= i < s.len() && s[i] == x;
                    if i > 0 {
                        assert(r[i - 1] == x);
                    }
                }
                if dom.contains(x) && x >= k {
                    if x == k {
                        assert(s[0] == x);
                    } else {
                        let i = choose|i: int| 0 <= i < r.len() && r[i] == x;
                        assert(s[i + 1] == x);
                    }
                }
            }
            assert forall|i: int, j: int| 0 <= i < j < s.len() implies s[i] < s[j] by {
                if i > 0 {
                    assert(r[i - 1] < r[j - 1]);
                } else {
                    assert(r[j - 1] >= k + 1);
                }
            }
        } else {
            assert forall|x: u8| r.contains(x) <==> dom.contains(x) && x >= k by {
                if dom.contains(x) && x >= k {
                    assert(x != k);
                }
            }
        }
    } else {
        assert forall|x: u8| keys_from(dom, k).contains(x) <==> dom.contains(x) && x >= k by {
        }
    }
}

/// An increasing sequence holding exactly the keys of `dom` from `k` on is `keys_from(dom, k)`.
pub proof fn lemma_keys_from_unique(dom: Set<u8>, k: nat, e: Seq<u8>)
    requires
        k <= 256,
        forall|i: int, j: int| 0 <= i < j < e.len() ==> e[i] < e[j],
        forall|x: u8| e.contains(x) <==> dom.contains(x) && x >= k,
    ensures
        e == keys_from(dom, k),
    decreases 256 - k,
{
    if k == 256 {
        if e.len() > 0 {
            assert(e.contains(e[0]));
        }
        assert(e =~= Seq::<u8>::empty());
    } else if dom.contains(k as u8) {
        assert(e.contains(k as u8));
        let i0 = choose|i: int| 0 <= i < e.len() && e[i] == k as u8;
        if i0 > 0 {
            assert(e.contains(e[0]));
            assert(e[0] < e[i0]);
        }
        let t = e.drop_first();
        assert forall|x: u8| t.contains(x) <==> dom.contains(x) && x >= k + 1 by {
            if t.contains(x) {
                let i = choose|i: int| 0 <= i < t.len() && t[i] == x;
                assert(e[i + 1] == x);
                assert(e.contains(x));
                assert(e[0] < e[i + 1]);
            }
            if dom.contains(x) && x >= k + 1 {
                assert(e.contains(x));
                let i = choose|i: int| 0 <= i < e.len() && e[i] == x;
                assert(i != 0);
                assert(t[i - 1] == x);
            }
        }
        lemma_keys_from_unique(dom, k + 1, t);
        assert(e =~= seq![k as u8] + t);
    } else {
        assert forall|x: u8| e.contains(x) <==> dom.contains(x) && x >= k + 1 by {
            if e.contains(x) {
                assert(x != k);
            }
        }
        lemma_keys_from_unique(dom, k + 1, e);
    }
}

} // verus!

verus! {

/// The encodings of the values at `ks`, in that order.
pub open spec fn enc_values<T: ToOutput>(m: Map<u8, T::V>, ks: Seq<u8>) -> Seq<u8>
    decreases ks.len(),
{
    if ks.len() == 0 {
        Seq::empty()
    } else {
        T::spec_output(m[ks[0]]) + enc_values::<T>(m, ks.drop_first())
    }
}

/// Decode one value per key of `ks`, in that order.
pub open spec fn parse_values<T: ParseInline>(ks: Seq<u8>, s: Seq<u8>) -> Result<(Map<u8, T::V>, nat), Error>
    decreases ks.len(),
{
    if ks.len() == 0 {
        Ok((Map::empty(), 0))
    } else {
        match T::spec_parse_inline(s) {
            Ok((v, n)) => match parse_values::<T>(ks.drop_first(), s.skip(n as int)) {
                Ok((m, n2)) => Ok((m.insert(ks[0], v), n + n2)),
                Err(e) => Err(e),
            },
            Err(e) => Err(e),
        }
    }
}

/// Appending a key appends its value's encoding.
pub proof fn lemma_enc_values_push<T: ToOutput>(m: Map<u8, T::V>, ks: Seq<u8>, k: u8)
    ensures
        enc_values::<T>(m, ks.push(k)) == enc_values::<T>(m, ks) + T::spec_output(m[k]),
    decreases ks.len(),
{
    if ks.len() == 0 {
        assert(ks.push(k).drop_first() =~= Seq::<u8>::empty());
        assert(enc_values::<T>(m, Seq::<u8>::empty()) == Seq::<u8>::empty());
        assert(T::spec_output(m[k]) + Seq::<u8>::empty() =~= T::spec_output(m[k]));
    } else {
        assert(ks.push(k).drop_first() =~= ks.drop_first().push(k));
        lemma_enc_values_push::<T>(m, ks.drop_first(), k);
        assert(enc_values::<T>(m, ks.push(k)) =~= enc_values::<T>(m, ks) + T::spec_output(m[k]));
    }
}

/// Only the values at `ks` matter.
pub proof fn lemma_enc_values_agree<T: ToOutput>(m1: Map<u8, T::V>, m2: Map<u8, T::V>, ks: Seq<u8>)
    requires
        forall|i: int| 0 <= i < ks.len() ==> m1[ks[i]] == m2[ks[i]],
    ensures
        enc_values::<T>(m1, ks) == enc_values::<T>(m2, ks),
    decreases ks.len(),
{
    if ks.len() > 0 {
        assert forall|i: int| 0 <= i < ks.drop_first().len() implies m1[ks.drop_first()[i]] == m2[ks.drop_first()[i]] by {
            assert(ks.drop_first()[i] == ks[i + 1]);
        }
        lemma_enc_values_agree::<T>(m1, m2, ks.drop_first());
        assert(m1[ks[0]] == m2[ks[0]]);
    }
}

/// Decoding the encodings of the values at distinct keys gives back those values.
pub proof fn lemma_parse_values_roundtrip<T: ParseInline>(m: Map<u8, T::V>, ks: Seq<u8>, rest: Seq<u8>)
    requires
        ks.no_duplicates(),
        forall|i: int| 0 <= i < ks.len() ==> m.contains_key(ks[i]) && T::spec_valid(m[ks[i]]),
    ensures
        parse_values::<T>(ks, enc_values::<T>(m, ks) + rest) == Ok::<(Map<u8, T::V>, nat), Error>(
            (m.restrict(ks.to_set()), enc_values::<T>(m, ks).len()),
        ),
    decreases ks.len(),
{
    if ks.len() == 0 {
        assert(m.restrict(ks.to_set()) =~= Map::<u8, T::V>::empty());
    } else {
        let k = ks[0];
        let t = ks.drop_first();
        let tail = enc_values::<T>(m, t) + rest;
        let s = enc_values::<T>(m, ks) + rest;
        assert(s =~= T::spec_output(m[k]) + tail);
        T::lemma_parse_inline_roundtrip(m[k], tail);
        assert(s.skip(T::spec_output(m[k]).len() as int) =~= tail);
        assert forall|i: int| 0 <= i < t.len() implies m.contains_key(t[i]) && T::spec_valid(m[t[i]]) by {
            assert(t[i] == ks[i + 1]);
        }
        assert(t.no_duplicates()) by {
            assert forall|i: int, j: int| 0 <= i < t.len() && 0 <= j < t.len() && i != j implies t[i] != t[j] by {
                assert(t[i] == ks[i + 1] && t[j] == ks[j + 1]);
            }
        }
        lemma_parse_values_roundtrip::<T>(m, t, rest);
        assert(m.restrict(t.to_set()).insert(k, m[k]) =~= m.restrict(ks.to_set())) by {
            assert forall|x: u8| #[trigger] ks.to_set().contains(x) == (t.to_set().contains(x) || x == k) by {
                if ks.contains(x) {
                    let i = choose|i: int| 0 <= i < ks.len() && ks[i] == x;
                    if i > 0 {
                        assert(t[i - 1] == x);
                    }
                }
                if t.contains(x) {
                    let i = choose|i: int| 0 <= i < t.len() && t[i] == x;
                    assert(ks[i + 1] == x);
                }
                if x == k {
                    assert(ks[0] == x);
                }
            }
        }
    }
}

/// What decodes is the encoding of the decoded values, over exactly the keys `ks`.
pub proof fn lemma_parse_values_canonical<T: ParseInline>(ks: Seq<u8>, s: Seq<u8>)
    requires
        ks.no_duplicates(),
    ensures
        parse_values::<T>(ks, s) matches Ok((m, n)) ==> {
            &&& n <= s.len()
            &&& s.take(n as int) == enc_values::<T>(m, ks)
            &&& m.dom() == ks.to_set()
            &&& forall|k: u8| #[trigger] m.contains_key(k) ==> T::spec_valid(m[k])
        },
    decreases ks.len(),
{
    if ks.len() == 0 {
        assert(s.take(0) =~= Seq::<u8>::empty());
        assert(Map::<u8, T::V>::empty().dom() =~= ks.to_set());
    } else {
        let t = ks.drop_first();
        assert(t.no_duplicates()) by {
            assert forall|i: int, j: int| 0 <= i < t.len() && 0 <= j < t.len() && i != j implies t[i] != t[j] by {
                assert(t[i] == ks[i + 1] && t[j] == ks[j + 1]);
            }
        }
        T::lemma_parse_inline_canonical(s);
        match T::spec_parse_inline(s) {
            Ok((v, n)) => {
                lemma_parse_values_canonical::<T>(t, s.skip(n as int));
                match parse_values::<T>(t, s.skip(n as int)) {
                    Ok((m2, n2)) => {
                        let k = ks[0];
                        let m = m2.insert(k, v);
                        assert(!t.contains(k)) by {
                            if t.contains(k) {
                                let i = choose|i: int| 0 <= i < t.len() && t[i] == k;
                                assert(ks[i + 1] == ks[0]);
                            }
                        }
                        assert forall|i: int| 0 <= i < t.len() implies m[t[i]] == m2[t[i]] by {
                            assert(t.contains(t[i]));
                        }
                        lemma_enc_values_agree::<T>(m, m2, t);
                        assert(s.take((n + n2) as int) =~= s.take(n as int) + s.skip(n as int).take(n2 as int));
                        assert forall|x: u8| #[trigger] m.dom().contains(x) == ks.to_set().contains(x) by {
                            if ks.contains(x) {
                                let i = choose|i: int| 0 <= i < ks.len() && ks[i] == x;
                                if i > 0 {
                                    assert(t[i - 1] == x);
                                }
                            }
                            if t.contains(x) {
                                let i = choose|i: int| 0 <= i < t.len() && t[i] == x;
                                assert(ks[i + 1] == x);
                            }
                            if x == k {
                                assert(ks[0] == x);
                            }
                        }
                        assert(m.dom() =~= ks.to_set());
                    },
                    Err(_) => {},
                }
            },
            Err(_) => {},
        }
    }
}

/// Keys from a sorted sequence have no duplicates.
pub proof fn lemma_sorted_no_duplicates(s: Seq<u8>)
    requires
        forall|i: int, j: int| 0 <= i < j < s.len() ==> s[i] < s[j],
    ensures
        s.no_duplicates(),
{
    assert forall|i: int, j: int| 0 <= i < s.len() && 0 <= j < s.len() && i != j implies s[i] != s[j] by {
        if i < j {
            assert(s[i] < s[j]);
        } else {
            assert(s[j] < s[i]);
        }
    }
}

impl<T: DeepView> DeepView for ArrayMap<T> {
    type V = Map<u8, T::V>;

    open spec fn deep_view(&self) -> Map<u8, T::V> {
        self@.map_values(|v: T| v.deep_view())
    }
}

impl<T: ToOutput> ToOutput for ArrayMap<T> {
    open spec fn spec_valid(m: Map<u8, T::V>) -> bool {
        forall|k: u8| #[trigger] m.contains_key(k) ==> T::spec_valid(m[k])
    }

    open spec fn spec_output(m: Map<u8, T::V>) -> Seq<u8> {
        key_mask(m.dom()) + enc_values::<T>(m, keys_from(m.dom(), 0))
    }

    fn to_output(&self, output: &mut Vec<u8>) {
        proof {
            use_type_invariant(self);
        }
        let ghost dv = self.deep_view();
        let ghost start = output@;
        let mut i: usize = 0;
        while i < 32
            invariant
                i <= 32,
                self.wf(),
                dv == self.deep_view(),
                output@ == start + key_mask(dv.dom()).take(i as int),
            decreases 32 - i,
        {
            let b = i as u8;
            let byte = (if self.contains(b << 3u8) { 1u8 } else { 0u8 })
                | (if self.contains((b << 3u8) | 1u8) { 2u8 } else { 0u8 })
                | (if self.contains((b << 3u8) | 2u8) { 4u8 } else { 0u8 })
                | (if self.contains((b << 3u8) | 3u8) { 8u8 } else { 0u8 })
                | (if self.contains((b << 3u8) | 4u8) { 16u8 } else { 0u8 })
                | (if self.contains((b << 3u8) | 5u8) { 32u8 } else { 0u8 })
                | (if self.contains((b << 3u8) | 6u8) { 64u8 } else { 0u8 })
                | (if self.contains((b << 3u8) | 7u8) { 128u8 } else { 0u8 });
            output.push(byte);
            proof {
                assert(dv.dom() =~= self@.dom());
                assert(byte == mask_byte(dv.dom(), b));
                assert(key_mask(dv.dom()).take(i + 1) =~= key_mask(dv.dom()).take(i as int).push(byte));
            }
            i = i + 1;
        }
        proof {
            assert(key_mask(dv.dom()).take(32) =~= key_mask(dv.dom()));
            self.lemma_key_seq();
            assert(dv.dom() =~= self@.dom());
            lemma_keys_from_unique(dv.dom(), 0, self.key_seq());
        }
        let ghost mid = output@;
        let mut j: usize = 0;
        while j < self.entries.len()
            invariant
                j <= self.entries@.len(),
                self.wf(),
                dv == self.deep_view(),
                output@ == mid + enc_values::<T>(dv, self.key_seq().take(j as int)),
            decreases self.entries@.len() - j,
        {
            proof {
                lemma_entries_map_at(self.entries@, j as int);
                lemma_enc_values_push::<T>(dv, self.key_seq().take(j as int), self.entries@[j as int].0);
                assert(self.key_seq().take(j + 1) =~= self.key_seq().take(j as int).push(self.entries@[j as int].0));
            }
            self.entries[j].1.to_output(output);
            j = j + 1;
        }
        proof {
            assert(self.key_seq().take(self.entries@.len() as int) =~= self.key_seq());
            assert(enc_values::<T>(dv, Seq::<u8>::empty()) == Seq::<u8>::empty());
            assert(output@ =~= start + Self::spec_output(dv));
        }
    }
}

/// Combine values decoded so far with the outcome of decoding the rest.
pub open spec fn parse_acc<V>(acc: Map<u8, V>, n: nat, r: Result<(Map<u8, V>, nat), Error>) -> Result<(Map<u8, V>, nat), Error> {
    match r {
        Ok((m, n2)) => Ok((acc.union_prefer_right(m), n + n2)),
        Err(e) => Err(e),
    }
}

impl<T: ParseInline> ParseInline for ArrayMap<T> {
    open spec fn spec_parse_inline(s: Seq<u8>) -> Result<(Map<u8, T::V>, nat), Error> {
        if s.len() < 32 {
            Err(Error::EndOfInput)
        } else {
            parse_acc(Map::empty(), 32, parse_values::<T>(keys_from(mask_keys(s.take(32)), 0), s.skip(32)))
        }
    }

    fn parse_inline(input: &mut Input) -> (res: Result<ArrayMap<T>, Error>) {
        let ghost s0 = input.rest();
        let mask = input.parse_chunk(32)?;
        let ghost dom = mask_keys(mask@);
        let ghost s1 = input.rest();
        let ghost mut consumed: nat = 0;
        let mut entries: Vec<(u8, T)> = Vec::new();
        let mut k: usize = 0;
        proof {
            lemma_keys_from(dom, 0);
            assert(s1 =~= s1.skip(0));
            assert(mask@ =~= s0.take(32));
            assert(entries_map(entries@).map_values(|v: T| v.deep_view()) =~= Map::<u8, T::V>::empty());
            assert(Map::<u8, T::V>::empty().union_prefer_right(Map::<u8, T::V>::empty()) =~= Map::<u8, T::V>::empty());
        }
        while k < 256
            invariant
                k <= 256,
                s0 == old(input).rest(),
                mask@.len() == 32,
                dom == mask_keys(mask@),
                s1 == s0.skip(32),
                consumed <= s1.len(),
                input.rest() == s1.skip(consumed as int),
                keys_sorted(entries@),
                forall|i: int| 0 <= i < entries@.len() ==> entries@[i].0 < k,
                forall|x: u8| #[trigger] entries_map(entries@).contains_key(x) <==> dom.contains(x) && x < k,
                Self::spec_parse_inline(s0) == parse_acc(
                    entries_map(entries@).map_values(|v: T| v.deep_view()),
                    32 + consumed,
                    parse_values::<T>(keys_from(dom, k as nat), input.rest()),
                ),
            decreases 256 - k,
        {
            let kb = k as u8;
            proof {
                lemma_key_split(kb);
                lemma_keys_from(dom, k as nat + 1);
            }
            let byte = mask[(kb >> 3u8) as usize];
            if (byte >> (kb & 7u8)) & 1u8 == 1u8 {
                let ghost r = input.rest();
                let ghost e = entries@;
                let ghost acc = entries_map(e).map_values(|v: T| v.deep_view());
                proof {
                    assert(keys_from(dom, k as nat) == seq![kb] + keys_from(dom, k as nat + 1));
                    assert((seq![kb] + keys_from(dom, k as nat + 1)).drop_first() =~= keys_from(dom, k as nat + 1));
                    assert((seq![kb] + keys_from(dom, k as nat + 1))[0] == kb);
                    assert(keys_from(dom, k as nat).drop_first() =~= keys_from(dom, k as nat + 1));
                    assert(keys_from(dom, k as nat)[0] == kb);
                    T::lemma_parse_inline_canonical(r);
                }
                let v = match T::parse_inline(input) {
                    Ok(v) => v,
                    Err(e) => {
                        proof {
                            assert(parse_values::<T>(keys_from(dom, k as nat), r) == Err::<(Map<u8, T::V>, nat), Error>(e));
                        }
                        return Err(e);
                    },
                };
                let ghost n = match T::spec_parse_inline(r) { Ok((_, n)) => n, Err(_) => 0 };
                entries.push((kb, v));
                proof {
                    assert(r.skip(n as int) =~= s1.skip((consumed + n) as int));
                    consumed = consumed + n;
                    let e2 = entries@;
                    assert forall|a: int, b: int| 0 <= a < b < e2.len() implies e2[a].0 < e2[b].0 by {
                        if b < e.len() {
                            assert(e[a].0 < e[b].0);
                        } else {
                            assert(e[a].0 < k);
                        }
                    }
                    assert forall|x: u8| #[trigger] entries_map(e2).contains_key(x) == entries_map(e).insert(kb, v).contains_key(x) by {
                        if entries_map(e2).contains_key(x) {
                            let i = choose|i: int| 0 <= i < e2.len() && e2[i].0 == x;
                            if i < e.len() {
                                assert(e[i].0 == x);
                            }
                        }
                        if entries_map(e).contains_key(x) {
                            let i = choose|i: int| 0 <= i < e.len() && e[i].0 == x;
                            assert(e2[i].0 == x);
                        }
                        if x == kb {
                            assert(e2[e.len() as int].0 == x);
                        }
                    }
                    assert forall|x: u8| #[trigger] entries_map(e2).contains_key(x) implies entries_map(e2)[x] == entries_map(e).insert(kb, v)[x] by {
                        let i = choose|i: int| 0 <= i < e2.len() && e2[i].0 == x;
                        lemma_entries_map_at(e2, i);
                        if i < e.len() {
                            lemma_entries_map_at(e, i);
                        }
                    }
                    assert(entries_map(e2) =~= entries_map(e).insert(kb, v));
                    let acc2 = entries_map(e2).map_values(|v: T| v.deep_view());
                    assert(acc2 =~= acc.insert(kb, v.deep_view()));
                    match parse_values::<T>(keys_from(dom, k as nat + 1), input.rest()) {
                        Ok((m2, n2)) => {
                            assert(!m2.contains_key(kb)) by {
                                lemma_parse_values_canonical::<T>(keys_from(dom, k as nat + 1), input.rest());
                                lemma_sorted_no_duplicates(keys_from(dom, k as nat + 1));
                                assert(!keys_from(dom, k as nat + 1).contains(kb));
                            }
                            lemma_sorted_no_duplicates(keys_from(dom, k as nat + 1));
                            lemma_parse_values_canonical::<T>(keys_from(dom, k as nat + 1), input.rest());
                            assert(acc.union_prefer_right(m2.insert(kb, v.deep_view())) =~= acc2.union_prefer_right(m2));
                        },
                        Err(_) => {},
                    }
                }
            } else {
                proof {
                    assert(!dom.contains(kb));
                    assert(keys_from(dom, k as nat) == keys_from(dom, k as nat + 1));
                    assert forall|x: u8| #[trigger] entries_map(entries@).contains_key(x) <==> dom.contains(x) && x < k + 1 by {
                        if x == kb {
                            assert(!dom.contains(x));
                        }
                    }
                }
            }
            k = k + 1;
        }
        let r = ArrayMap { entries };
        proof {
            assert(keys_from(dom, 256) == Seq::<u8>::empty());
            assert(r.deep_view() =~= entries_map(entries@).map_values(|v: T| v.deep_view()));
            assert(r.deep_view().union_prefer_right(Map::<u8, T::V>::empty()) =~= r.deep_view());
            assert(s1.skip(consumed as int) =~= s0.skip((32 + consumed) as int));
        }
        Ok(r)
    }

    proof fn lemma_parse_inline_roundtrip(m: Map<u8, T::V>, rest: Seq<u8>) {
        let dom = m.dom();
        let ks = keys_from(dom, 0);
        let mask = key_mask(dom);
        let vals = enc_values::<T>(m, ks);
        let s = Self::spec_output(m) + rest;
        assert(s =~= mask + (vals + rest));
        assert(s.take(32) =~= mask);
        assert(s.skip(32) =~= vals + rest);
        lemma_mask_keys_of_key_mask(dom);
        lemma_keys_from(dom, 0);
        lemma_sorted_no_duplicates(ks);
        lemma_parse_values_roundtrip::<T>(m, ks, rest);
        assert(m.restrict(ks.to_set()) =~= m);
        assert(Map::<u8, T::V>::empty().union_prefer_right(m) =~= m);
    }

    proof fn lemma_parse_inline_canonical(s: Seq<u8>) {
        if s.len() >= 32 {
            let mask = s.take(32);
            let dom = mask_keys(mask);
            let ks = keys_from(dom, 0);
            lemma_keys_from(dom, 0);
            lemma_sorted_no_duplicates(ks);
            lemma_parse_values_canonical::<T>(ks, s.skip(32));
            match parse_values::<T>(ks, s.skip(32)) {
                Ok((m, n)) => {
                    assert(Map::<u8, T::V>::empty().union_prefer_right(m) =~= m);
                    assert(m.dom() =~= dom);
                    lemma_key_mask_of_mask_keys(mask);
                    assert(s.take((32 + n) as int) =~= mask + s.skip(32).take(n as int));
                },
                Err(_) => {},
            }
        }
    }
}

/// A set of bytes, encoded as the presence mask alone (a map to nothing).
pub struct ArraySet {
    map: ArrayMap<()>,
}

impl View for ArraySet {
    type V = Set<u8>;

    closed spec fn view(&self) -> Set<u8> {
        self.map@.dom()
    }
}

impl DeepView for ArraySet {
    type V = Map<u8, ()>;

    closed spec fn deep_view(&self) -> Map<u8, ()> {
        self.map.deep_view()
    }
}

impl ArraySet {
    /// The empty set.
    pub fn new() -> (r: Self)
        ensures
            r@ == Set::<u8>::empty(),
    {
        let r = ArraySet { map: ArrayMap::new() };
        proof {
            assert(r@ =~= Set::<u8>::empty());
        }
        r
    }

    /// The set of the given bytes.
    pub fn from_keys(keys: &[u8]) -> (r: Self)
        ensures
            forall|x: u8| r@.contains(x) == keys@.contains(x),
    {
        let mut r = ArraySet::new();
        let mut i: usize = 0;
        while i < keys.len()
            invariant
                i <= keys@.len(),
                forall|x: u8| r@.contains(x) == keys@.take(i as int).contains(x),
            decreases keys@.len() - i,
        {
            let k = keys[i];
            r.insert(k);
            proof {
                let t = keys@.take(i + 1);
                assert(t =~= keys@.take(i as int).push(k));
                assert forall|x: u8| r@.contains(x) == t.contains(x) by {
                    if t.contains(x) {
                        let j = choose|j: int| 0 <= j < t.len() && t[j] == x;
                        if j < i {
                            assert(keys@.take(i as int)[j] == x);
                        }
                    }
                    if keys@.take(i as int).contains(x) {
                        let j = choose|j: int| 0 <= j < i && keys@.take(i as int)[j] == x;
                        assert(t[j] == x);
                    }
                    if x == k {
                        assert(t[i as int] == x);
                    }
                }
            }
            i = i + 1;
        }
        proof {
            assert(keys@.take(i as int) =~= keys@);
        }
        r
    }

    /// Add `key`; true when it was not there before.
    pub fn insert(&mut self, key: u8) -> (r: bool)
        ensures
            final(self)@ == old(self)@.insert(key),
            r == !old(self)@.contains(key),
    {
        if !self.map.contains(key) {
            self.map.insert(key, ());
            proof {
                assert(self@ =~= old(self)@.insert(key));
            }
            true
        } else {
            proof {
                assert(old(self)@.insert(key) =~= old(self)@);
            }
            false
        }
    }

    /// Whether `key` is in the set.
    pub fn contains(&self, key: u8) -> (r: bool)
        ensures
            r == self@.contains(key),
    {
        self.map.contains(key)
    }

    /// The same set as a map to nothing.
    pub fn into_equivalent(self) -> (r: ArrayMap<()>)
        ensures
            r@.dom() == self@,
    {
        self.map
    }

    /// The set of the keys of a map to nothing.
    pub fn from_equivalent(map: ArrayMap<()>) -> (r: Self)
        ensures
            r@ == map@.dom(),
    {
        ArraySet { map }
    }
}

impl ToOutput for ArraySet {
    open spec fn spec_valid(m: Map<u8, ()>) -> bool {
        ArrayMap::<()>::spec_valid(m)
    }

    open spec fn spec_output(m: Map<u8, ()>) -> Seq<u8> {
        ArrayMap::<()>::spec_output(m)
    }

    fn to_output(&self, output: &mut Vec<u8>) {
        self.map.to_output(output);
    }
}

impl ParseInline for ArraySet {
    open spec fn spec_parse_inline(s: Seq<u8>) -> Result<(Map<u8, ()>, nat), Error> {
        ArrayMap::<()>::spec_parse_inline(s)
    }

    fn parse_inline(input: &mut Input) -> (res: Result<ArraySet, Error>) {
        let map = ArrayMap::<()>::parse_inline(input)?;
        Ok(ArraySet { map })
    }

    proof fn lemma_parse_inline_roundtrip(v: Map<u8, ()>, rest: Seq<u8>) {
        ArrayMap::<()>::lemma_parse_inline_roundtrip(v, rest);
    }

    proof fn lemma_parse_inline_canonical(s: Seq<u8>) {
        ArrayMap::<()>::lemma_parse_inline_canonical(s);
    }
}

} // verus!
