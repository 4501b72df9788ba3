use object_rainbow::ascii::StaticAsciiSplit;

#[test]
fn ascii_split1() {
    let split: Vec<(i32, String)> =
        StaticAsciiSplit::static_map("a b").into_iter().map(|s| (1, s)).collect();
    assert_eq!(split, [(1, "a".to_string()), (1, "b".to_string())]);
}

#[test]
fn split_on_every_separator() {
    let words = StaticAsciiSplit::static_map("\0foo\t\tbar \n\x0c\rbaz qux ");
    assert_eq!(words, vec!["foo", "bar", "baz", "qux"]);
}

#[test]
fn split_nothing() {
    assert!(StaticAsciiSplit::static_map("").is_empty());
    assert!(StaticAsciiSplit::static_map(" \t\n").is_empty());
    assert_eq!(StaticAsciiSplit::static_map("héllo wörld"), vec!["héllo", "wörld"]);
}
