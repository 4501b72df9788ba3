use object_rainbow::default_chain::DefaultChain;
use object_rainbow::default_terminated::Dt;
use object_rainbow::ln_option::LnOption;
use object_rainbow::none_terminated::Nt;
use object_rainbow::traits::{output, parse_slice};

#[test]
fn none_terminated_roundtrip() {
    let v = Nt(vec![true, false, true]);
    let data = output(&v);
    assert_eq!(data, vec![1, 0, 1, 2]);
    let back = parse_slice::<Nt<bool>>(&data).unwrap();
    assert_eq!(back.0, vec![true, false, true]);
}

#[test]
fn default_terminated_roundtrip() {
    let v = Dt::new(vec![3u8, 4]);
    let data = output(&v);
    assert_eq!(data, vec![3, 4, 0]);
    let back = parse_slice::<Dt<u8>>(&data).unwrap();
    assert_eq!(back.items(), &vec![3u8, 4]);
}

#[test]
fn length_tagged_option() {
    assert_eq!(output(&LnOption(Some(7u8))), vec![0xff, 7]);
    assert_eq!(output(&LnOption::<u8>(None)), vec![0xfe]);
}

#[test]
fn default_chain_layout() {
    let a = DefaultChain::<u8, u8>::from_first(5);
    let data = output(&a);
    assert_eq!(data, vec![5]);
    let back = parse_slice::<DefaultChain<u8, u8>>(&data).unwrap();
    assert_eq!(*back.first(), 5);
    assert_eq!(*back.second(), 0);
    let b = DefaultChain::<u8, u8>::from_second(9);
    let data = output(&b);
    assert_eq!(data, vec![0, 9]);
    let back = parse_slice::<DefaultChain<u8, u8>>(&data).unwrap();
    assert_eq!(*back.first(), 0);
    assert_eq!(*back.second(), 9);
}

#[test]
fn nested_options_roundtrip() {
    for v in [Some(Some(true)), Some(Some(false)), Some(None), None] {
        let data = output(&v);
        assert_eq!(data.len(), 1);
        assert_eq!(parse_slice::<Option<Option<bool>>>(&data).unwrap(), v);
    }
}
