use object_rainbow::append_tree::AppendTree;

#[test]
fn push_then_get() {
    let mut tree = AppendTree::<u64>::new();
    assert!(tree.is_empty());
    for i in 0..100000u64 {
        tree.push(i).unwrap();
        assert_eq!(tree.get(i), Some(i));
    }
    assert_eq!(tree.len(), 100000);
    for i in (0..100000u64).step_by(997) {
        assert_eq!(tree.get(i), Some(i));
    }
    assert_eq!(tree.get(100000), None);
}
