use object_rainbow::array_map::{ArrayMap, ArraySet};
use object_rainbow::traits::{output, parse_slice};

#[test]
fn insert_get_remove() {
    let mut m = ArrayMap::<u16>::new();
    assert!(m.is_empty());
    assert_eq!(m.insert(200, 1), None);
    assert_eq!(m.insert(3, 2), None);
    assert_eq!(m.insert(200, 5), Some(1));
    assert_eq!(m.len(), 2);
    assert_eq!(m.get(200), Some(&5));
    assert!(m.contains(3));
    assert_eq!(m.pop_first(), Some((3, 2)));
    assert_eq!(m.remove(200), Some(5));
    assert!(m.is_empty());
}

#[test]
fn map_values() {
    let mut m = ArrayMap::<u8>::new();
    m.insert(1, 10);
    m.insert(7, 70);
    let m = m.map(|v: u8| v as u32 + 1);
    assert_eq!(m.get(1), Some(&11));
    assert_eq!(m.get(7), Some(&71));
    assert_eq!(m.len(), 2);
}

#[test]
fn retain_some() {
    let mut m = ArrayMap::<u8>::new();
    for k in 0u8..10 {
        m.insert(k, k * 3);
    }
    m.retain(|k: u8, v: u8| (k % 2 == 0 && v > 3, v));
    assert!(!m.contains(0));
    assert!(m.contains(2));
    assert!(!m.contains(3));
    assert_eq!(m.get(8), Some(&24));
    assert_eq!(m.len(), 4);
}

#[test]
fn retain_updates_kept_values() {
    let mut m = ArrayMap::<u8>::new();
    for k in 0u8..6 {
        m.insert(k, k);
    }
    m.retain(|k: u8, v: u8| (k != 2, v + 100));
    assert_eq!(m.get(0), Some(&100));
    assert_eq!(m.get(5), Some(&105));
    assert!(!m.contains(2));
    assert_eq!(m.len(), 5);
}

#[test]
fn set_mask_encoding() {
    let mut s = ArraySet::from_keys(&[0, 9, 255]);
    assert!(s.contains(9));
    assert!(!s.contains(8));
    assert!(!s.insert(9));
    assert!(s.insert(8));
    let data = output(&s);
    let mut expected = vec![0u8; 32];
    expected[0] = 1;
    expected[1] = 3;
    expected[31] = 0x80;
    assert_eq!(data, expected);
    let back = parse_slice::<ArraySet>(&data).unwrap();
    assert!(back.contains(255));
    assert!(back.contains(8));
    assert!(!back.contains(1));
    let map = back.into_equivalent();
    assert_eq!(map.len(), 4);
}

#[test]
fn from_entries_later_wins() {
    let m = ArrayMap::from_entries(vec![(5u8, 1u8), (2, 2), (5, 3)]);
    assert_eq!(m.len(), 2);
    assert_eq!(m.get(5), Some(&3));
    assert_eq!(m.get(2), Some(&2));
    let mut m = m;
    assert_eq!(m.pop_first(), Some((2, 2)));
}
