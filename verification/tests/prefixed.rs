use object_rainbow::array_map::ArrayMap;
use object_rainbow::length_prefixed::{Lp, LpBytes, LpString, LpVec};
use object_rainbow::traits::{output, parse_slice};
use object_rainbow::error::Error;

#[test]
fn prefixed() {
    let a = Lp(vec![0u8, 1, 2]);
    let data = output(&a);
    let b = parse_slice::<Lp<Vec<u8>>>(&data).unwrap();
    assert_eq!(a.0, b.0);
}

#[test]
fn reparse() {
    let mut map = ArrayMap::<u8>::new();
    map.insert(12, 34);
    let data = output(&map);
    let map = parse_slice::<ArrayMap<u8>>(&data).unwrap();
    assert_eq!(map.get(12), Some(&34));
}
