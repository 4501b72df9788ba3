use object_rainbow::traits::output;

#[test]
fn none_is_zeros() {
    assert_eq!(
        output(&None::<object_rainbow::hash::Hash>),
        vec![
            0, 0, 0, 0, 0, 0, 0, 0, 0, 0, 0, 0, 0, 0, 0, 0, 0xff, 0xff, 0xff, 0xff, 0xff, 0xff,
            0xff, 0xff, 0xff, 0xff, 0xff, 0xff, 0xff, 0xff, 0xff, 0xff,
        ]
    );
}

#[test]
fn none_none_is_one() {
    assert_eq!(
        output(&None::<Option<object_rainbow::hash::Hash>>),
        vec![
            0, 0, 0, 0, 0, 0, 0, 0, 0, 0, 0, 0, 0, 0, 0, 0, 0xff, 0xff, 0xff, 0xff, 0xff, 0xff,
            0xff, 0xff, 0xff, 0xff, 0xff, 0xff, 0xff, 0xff, 0xff, 0xfe,
        ]
    );
}

#[test]
fn none_none_none_is_two() {
    assert_eq!(
        output(&None::<Option<Option<object_rainbow::hash::Hash>>>),
        vec![
            0, 0, 0, 0, 0, 0, 0, 0, 0, 0, 0, 0, 0, 0, 0, 0, 0xff, 0xff, 0xff, 0xff, 0xff, 0xff,
            0xff, 0xff, 0xff, 0xff, 0xff, 0xff, 0xff, 0xff, 0xff, 0xfd,
        ]
    );
}

#[test]
fn none_is_2() {
    assert_eq!(output(&None::<bool>), vec![2]);
}

#[test]
fn none_none_is_2() {
    assert_eq!(output(&None::<Option<bool>>), vec![3]);
}

#[test]
fn byte_array_niche() {
    assert_eq!(output(&None::<([u8; 2], bool)>), vec![0, 0, 2]);
}

#[test]
fn unit_none_is_254() {
    assert_eq!(output(&None::<()>), vec![254]);
}

#[test]
fn unit_none_none_is_253() {
    assert_eq!(output(&None::<Option<()>>), vec![253]);
}

#[test]
fn unit_none_none_none_is_252() {
    assert_eq!(output(&None::<Option<Option<()>>>), vec![252]);
}
