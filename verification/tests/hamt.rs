use object_rainbow::hamt::{HamtMap, HamtSet};
use object_rainbow::hash::data_hash;

#[test]
fn map_insert_get_remove() {
    let mut map = HamtMap::<u16>::new();
    for i in 0u16..=2000 {
        let h = data_hash(&(i as u8, (i >> 8) as u8));
        map.insert(h, i);
    }
    for i in 0u16..=2000 {
        let h = data_hash(&(i as u8, (i >> 8) as u8));
        assert_eq!(map.get(h), Some(i));
    }
    for i in 0u16..=2000 {
        let h = data_hash(&(i as u8, (i >> 8) as u8));
        assert_eq!(map.remove(h), Some(i));
    }
    assert!(map.is_empty());
}

#[test]
fn intersect() {
    let mut l = HamtSet::new();
    for i in 0u8..=254 {
        l.insert(data_hash(&(i, 1u8)));
        l.insert(data_hash(&(i, 3u8)));
    }
    let mut r = HamtSet::new();
    for i in 0u8..=254 {
        r.insert(data_hash(&(i, 2u8)));
        r.insert(data_hash(&(i, 3u8)));
    }
    l.intersect(&r);
    for i in 0u8..=254 {
        assert!(!l.contains(data_hash(&(i, 1u8))));
        assert!(!l.contains(data_hash(&(i, 2u8))));
        assert!(l.contains(data_hash(&(i, 3u8))));
    }
    let mut r = HamtSet::new();
    for i in 0u8..=254 {
        r.insert(data_hash(&(i, 1u8)));
        r.insert(data_hash(&(i, 2u8)));
    }
    l.intersect(&r);
    assert!(l.is_empty());
}

#[test]
fn map_append_keeps_both() {
    let mut a = HamtMap::<u8>::new();
    let mut b = HamtMap::<u8>::new();
    for i in 0u8..100 {
        a.insert(data_hash(&(i, 0u8)), i);
        b.insert(data_hash(&(i, 1u8)), i);
    }
    a.append(&mut b);
    for i in 0u8..100 {
        assert_eq!(a.get(data_hash(&(i, 0u8))), Some(i));
        assert_eq!(a.get(data_hash(&(i, 1u8))), Some(i));
    }
}

#[test]
fn set_insert_remove() {
    let mut s = HamtSet::new();
    let h = data_hash(&7u8);
    assert!(s.insert(h));
    assert!(!s.insert(h));
    assert!(s.contains(h));
    assert!(s.remove(h));
    assert!(!s.remove(h));
    assert!(s.is_empty());
}

#[test]
fn amt_set_insert_contains() {
    let mut tree = object_rainbow::amt_set::AmtSet::default();
    assert!(tree.insert(data_hash(&1u8)));
    assert!(tree.contains(data_hash(&1u8)));
    assert!(!tree.insert(data_hash(&1u8)));
    assert!(tree.contains(data_hash(&1u8)));
    assert!(tree.insert(data_hash(&2u8)));
    assert!(tree.contains(data_hash(&1u8)));
    assert!(tree.contains(data_hash(&2u8)));
    assert!(!tree.insert(data_hash(&2u8)));
    assert!(tree.contains(data_hash(&1u8)));
    assert!(tree.contains(data_hash(&2u8)));
}
