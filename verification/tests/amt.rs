use object_rainbow::amt::{AmtMap, AmtSet};

#[test]
fn test() {
    let mut amt = AmtMap::<[u8; 4], ()>::new();
    amt.insert(*b"abcd", ());
    assert_eq!(amt.get(b"abcd"), Some(()));
    amt.insert(*b"abce", ());
    assert_eq!(amt.get(b"abcd"), Some(()));
    assert_eq!(amt.get(b"abce"), Some(()));
    amt.insert(*b"abff", ());
    assert_eq!(amt.get(b"abcd"), Some(()));
    assert_eq!(amt.get(b"abce"), Some(()));
    assert_eq!(amt.get(b"abff"), Some(()));
    amt.insert(*b"abfg", ());
    assert_eq!(amt.get(b"abcd"), Some(()));
    assert_eq!(amt.get(b"abce"), Some(()));
    assert_eq!(amt.get(b"abff"), Some(()));
    assert_eq!(amt.get(b"abfg"), Some(()));
}

#[test]
fn remove() {
    let mut amt = AmtMap::<[u8; 4], ()>::new();
    amt.insert(*b"abcd", ());
    amt.insert(*b"abce", ());
    amt.insert(*b"abff", ());
    amt.insert(*b"abfg", ());
    assert_eq!(amt.get(b"abcd"), Some(()));
    assert_eq!(amt.get(b"abce"), Some(()));
    assert_eq!(amt.get(b"abff"), Some(()));
    assert_eq!(amt.get(b"abfg"), Some(()));
    amt.remove(b"abce");
    amt.remove(b"abff");
    assert_eq!(amt.get(b"abcd"), Some(()));
    assert_eq!(amt.get(b"abce"), None);
    assert_eq!(amt.get(b"abff"), None);
    assert_eq!(amt.get(b"abfg"), Some(()));
    amt.remove(b"abcd");
    amt.remove(b"abfg");
    assert!(amt.is_empty());
}

#[test]
fn append_1() {
    let mut a = AmtMap::<[u8; 4], ()>::new();
    a.insert(*b"abcd", ());
    a.insert(*b"abff", ());
    let mut b = AmtMap::<[u8; 4], ()>::new();
    b.insert(*b"abce", ());
    b.insert(*b"abfg", ());
    a.append(&mut b);
    assert!(b.is_empty());
    assert_eq!(a.get(b"abcd"), Some(()));
    assert_eq!(a.get(b"abce"), Some(()));
    assert_eq!(a.get(b"abff"), Some(()));
    assert_eq!(a.get(b"abfg"), Some(()));
}

#[test]
fn append_2() {
    let mut a = AmtMap::<[u8; 4], ()>::new();
    a.insert(*b"abcd", ());
    a.insert(*b"abff", ());
    a.insert(*b"abce", ());
    let mut b = AmtMap::<[u8; 4], ()>::new();
    b.insert(*b"abfg", ());
    a.append(&mut b);
    assert!(b.is_empty());
    assert_eq!(a.get(b"abcd"), Some(()));
    assert_eq!(a.get(b"abce"), Some(()));
    assert_eq!(a.get(b"abff"), Some(()));
    assert_eq!(a.get(b"abfg"), Some(()));
}

#[test]
fn append_3() {
    let mut a = AmtMap::<[u8; 4], ()>::new();
    a.insert(*b"abcd", ());
    a.insert(*b"abce", ());
    let mut b = AmtMap::<[u8; 4], ()>::new();
    b.insert(*b"abff", ());
    b.insert(*b"abfg", ());
    a.append(&mut b);
    assert!(b.is_empty());
    assert_eq!(a.get(b"abcd"), Some(()));
    assert_eq!(a.get(b"abce"), Some(()));
    assert_eq!(a.get(b"abff"), Some(()));
    assert_eq!(a.get(b"abfg"), Some(()));
}

#[test]
fn append_into_shorter_branch() {
    // `b`'s branch shares fewer bytes than `a`'s and has a child under the byte where
    // `a`'s keys continue.
    let mut a = AmtMap::<[u8; 4], u8>::new();
    a.insert(*b"abcd", 1);
    a.insert(*b"abce", 2);
    let mut b = AmtMap::<[u8; 4], u8>::new();
    b.insert(*b"abcf", 3);
    b.insert(*b"axyz", 4);
    b.insert(*b"abcd", 5);
    a.append(&mut b);
    assert!(b.is_empty());
    assert_eq!(a.get(b"abcd"), Some(5));
    assert_eq!(a.get(b"abce"), Some(2));
    assert_eq!(a.get(b"abcf"), Some(3));
    assert_eq!(a.get(b"axyz"), Some(4));
}

#[test]
fn append_swap() {
    let mut a = AmtMap::<[u8; 4], bool>::new();
    a.insert(*b"abcd", false);
    a.insert(*b"abce", false);
    a.insert(*b"abff", false);
    a.insert(*b"abfg", false);
    a.insert(*b"xxx1", true);
    a.insert(*b"xxx2", true);
    let mut b = AmtMap::<[u8; 4], bool>::new();
    b.insert(*b"abcd", true);
    b.insert(*b"abce", true);
    b.insert(*b"abff", true);
    b.insert(*b"abfg", true);
    b.insert(*b"ahij", true);
    b.insert(*b"xxy1", true);
    b.insert(*b"xxy2", true);
    a.append_swap(&mut b);
    assert_eq!(a.get(b"abcd"), Some(true));
    assert_eq!(a.get(b"abce"), Some(true));
    assert_eq!(a.get(b"abff"), Some(true));
    assert_eq!(a.get(b"abfg"), Some(true));
    assert_eq!(a.get(b"ahij"), Some(true));
    assert_eq!(a.get(b"xxx1"), Some(true));
    assert_eq!(a.get(b"xxx2"), Some(true));
    assert_eq!(a.get(b"xxy1"), Some(true));
    assert_eq!(a.get(b"xxy2"), Some(true));

    assert_eq!(b.get(b"abcd"), Some(false));
    assert_eq!(b.get(b"abce"), Some(false));
    assert_eq!(b.get(b"abff"), Some(false));
    assert_eq!(b.get(b"abfg"), Some(false));
    assert_eq!(b.get(b"xxx1"), None);
    assert_eq!(b.get(b"xxx2"), None);
    assert_eq!(b.get(b"xxy1"), None);
    assert_eq!(b.get(b"xxy2"), None);
}

#[test]
fn bulk() {
    let mut a = AmtMap::<[u8; 4], bool>::new();
    a.insert(*b"abcd", false);
    a.insert(*b"abce", false);
    a.insert(*b"abff", false);
    a.insert(*b"abfg", false);
    a.insert(*b"xxx1", true);
    a.insert(*b"xxx2", true);
    a.insert(*b"xxx3", false);
    let mut b = AmtMap::<[u8; 4], Option<bool>>::new();
    b.insert(*b"abcd", Some(true));
    b.insert(*b"abce", Some(true));
    b.insert(*b"abff", Some(true));
    b.insert(*b"abfg", Some(true));
    b.insert(*b"ahij", Some(true));
    b.insert(*b"xxy1", Some(true));
    b.insert(*b"xxy2", Some(true));
    b.insert(*b"xxx3", None);
    let b = a.bulk(b);
    assert_eq!(a.get(b"abcd"), Some(true));
    assert_eq!(a.get(b"abce"), Some(true));
    assert_eq!(a.get(b"abff"), Some(true));
    assert_eq!(a.get(b"abfg"), Some(true));
    assert_eq!(a.get(b"ahij"), Some(true));
    assert_eq!(a.get(b"xxx1"), Some(true));
    assert_eq!(a.get(b"xxx2"), Some(true));
    assert_eq!(a.get(b"xxy1"), Some(true));
    assert_eq!(a.get(b"xxy2"), Some(true));
    assert_eq!(a.get(b"xxx3"), None);

    assert_eq!(b.get(b"abcd"), Some(false));
    assert_eq!(b.get(b"abce"), Some(false));
    assert_eq!(b.get(b"abff"), Some(false));
    assert_eq!(b.get(b"abfg"), Some(false));
    assert_eq!(b.get(b"xxx1"), None);
    assert_eq!(b.get(b"xxx2"), None);
    assert_eq!(b.get(b"xxy1"), None);
    assert_eq!(b.get(b"xxy2"), None);
    assert_eq!(b.get(b"xxx3"), Some(false));
}

#[test]
fn bulk_clears_everything() {
    let mut a = AmtMap::<[u8; 2], u8>::new();
    a.insert(*b"ab", 1);
    a.insert(*b"ac", 2);
    let mut b = AmtMap::<[u8; 2], Option<u8>>::new();
    b.insert(*b"ab", None);
    b.insert(*b"ac", None);
    b.insert(*b"zz", None);
    let taken = a.bulk(b);
    assert!(a.is_empty());
    assert_eq!(taken.get(b"ab"), Some(1));
    assert_eq!(taken.get(b"ac"), Some(2));
    assert_eq!(taken.get(b"zz"), None);
}

#[test]
fn insert_returns_previous() {
    let mut a = AmtMap::<[u8; 2], u8>::new();
    assert_eq!(a.insert(*b"ab", 1), None);
    assert_eq!(a.insert(*b"ab", 2), Some(1));
    assert_eq!(a.remove(b"ab"), Some(2));
    assert_eq!(a.remove(b"ab"), None);
    a.insert(*b"cd", 3);
    a.clear();
    assert!(a.is_empty());
}

#[test]
fn map_and_filter_map() {
    let mut a = AmtMap::<[u8; 2], u8>::new();
    a.insert(*b"ab", 1);
    a.insert(*b"ac", 2);
    a.insert(*b"zz", 3);
    let doubled = a.map(|x: u8| x as u16 * 2);
    assert_eq!(doubled.get(b"ab"), Some(2));
    assert_eq!(doubled.get(b"ac"), Some(4));
    assert_eq!(doubled.get(b"zz"), Some(6));
    let odd = doubled.filter_map(|x: u16| if x % 4 == 0 { None } else { Some(x + 1) });
    assert_eq!(odd.get(b"ab"), Some(3));
    assert_eq!(odd.get(b"ac"), None);
    assert_eq!(odd.get(b"zz"), Some(7));
    let none = odd.filter_map(|_x: u16| None::<u8>);
    assert!(none.is_empty());
}

#[test]
fn set_operations() {
    let mut s = AmtSet::<[u8; 2]>::new();
    assert!(s.insert(*b"ab"));
    assert!(!s.insert(*b"ab"));
    assert!(s.contains(b"ab"));
    assert!(s.insert(*b"ac"));
    let mut t = AmtSet::<[u8; 2]>::new();
    t.insert(*b"ac");
    t.insert(*b"xy");
    s.append_swap(&mut t);
    assert!(s.contains(b"ab"));
    assert!(s.contains(b"ac"));
    assert!(s.contains(b"xy"));
    assert!(t.contains(b"ac"));
    assert!(!t.contains(b"xy"));
    assert!(!t.contains(b"ab"));
    let mut u = AmtSet::<[u8; 2]>::new();
    u.insert(*b"qq");
    s.append(&mut u);
    assert!(u.is_empty());
    assert!(s.contains(b"qq"));
    assert!(s.remove(b"qq"));
    assert!(!s.remove(b"qq"));
    s.clear();
    assert!(s.is_empty());
}
