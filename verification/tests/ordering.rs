use object_rainbow::length_prefixed::LpVec;
use object_rainbow::ordering::ByteOrd;
use object_rainbow::sequence::Sequence;
use object_rainbow::traits::ToOutput;
use std::cmp::Ordering;
use std::collections::VecDeque;
use object_rainbow::input::Input;
use object_rainbow::traits::Parse;

#[test]
fn vec_item_order() {
    assert_eq!(vec![1u8, 2].bytes_cmp(&vec![1u8, 3]), Ordering::Less);
    assert_eq!(vec![1u8].bytes_cmp(&vec![1u8, 0]), Ordering::Less);
    assert_eq!(vec![2u8].bytes_cmp(&vec![1u8, 9]), Ordering::Greater);
    assert_eq!(vec![true, false].bytes_cmp(&vec![true, false]), Ordering::Equal);
    assert_eq!(Sequence(vec![[1u8, 2]]).bytes_cmp(&Sequence(vec![[1u8, 1]])), Ordering::Greater);
}

#[test]
fn counted_vec_order_counts_first() {
    assert_eq!(LpVec(vec![5u8]).bytes_cmp(&LpVec(vec![4u8, 9])), Ordering::Less);
    assert_eq!(LpVec(vec![4u8, 9]).bytes_cmp(&LpVec(vec![5u8])), Ordering::Greater);
    assert_eq!(LpVec(vec![4u8, 9]).bytes_cmp(&LpVec(vec![4u8, 8])), Ordering::Greater);
    assert_eq!(LpVec(vec![true, false]).bytes_cmp(&LpVec(vec![true, false])), Ordering::Equal);
}

#[test]
fn text_bytes() {
    let mut out = Vec::new();
    "hé".to_output(&mut out);
    assert_eq!(out, vec![b'h', 0xc3, 0xa9]);
    assert_eq!("abc".bytes_cmp("abd"), Ordering::Less);
    assert_eq!("ab".bytes_cmp("a"), Ordering::Greater);
    assert_eq!("é".bytes_cmp("z"), Ordering::Greater);
}

#[test]
fn deque_encoding() {
    let mut q = VecDeque::new();
    q.push_back(2u8);
    q.push_front(1u8);
    q.push_back(3u8);
    let mut out = Vec::new();
    q.to_output(&mut out);
    assert_eq!(out, vec![1, 2, 3]);
    let back = <VecDeque<u8> as Parse>::parse(Input::new(&out)).unwrap();
    assert_eq!(back, q);
    let v = object_rainbow::vec_deque::into_vec(back);
    assert_eq!(v, vec![1, 2, 3]);
}

#[test]
fn none_terminated_order() {
    use_nt();
}

fn use_nt() {
    let a = object_rainbow::none_terminated::Nt(vec![Some(()), None]);
    let b = object_rainbow::none_terminated::Nt(vec![Some(())]);
    assert_eq!(a.bytes_cmp(&b), Ordering::Greater);
    assert_eq!(b.bytes_cmp(&a), Ordering::Less);
    let mut ea = Vec::new();
    a.to_output(&mut ea);
    let mut eb = Vec::new();
    b.to_output(&mut eb);
    assert!(ea > eb);
    let h1 = object_rainbow::hash::data_hash(&1u8);
    let h2 = object_rainbow::hash::data_hash(&2u8);
    let x = object_rainbow::none_terminated::Nt(vec![h1]);
    let y = object_rainbow::none_terminated::Nt(vec![h2]);
    let mut ex = Vec::new();
    x.to_output(&mut ex);
    let mut ey = Vec::new();
    y.to_output(&mut ey);
    assert_eq!(x.bytes_cmp(&y), ex.cmp(&ey));
}

#[test]
fn deque_item_order() {
    let a: VecDeque<u8> = VecDeque::from(vec![1, 2]);
    let b: VecDeque<u8> = VecDeque::from(vec![1, 2, 0]);
    assert_eq!(a.bytes_cmp(&b), Ordering::Less);
    assert_eq!(b.bytes_cmp(&a), Ordering::Greater);
    assert_eq!(a.bytes_cmp(&a.clone()), Ordering::Equal);
}
