use object_rainbow::error::Error;
use object_rainbow::hash::{bytes_hash, HexError};
use object_rainbow::input::Input;
use object_rainbow::length_prefixed::{LpBytes, LpString};
use object_rainbow::traits::{output, parse_slice, Parse};
use object_rainbow::tuple_of_arrays::TupleOfArrays;

#[test]
fn end_of_input() {
    assert_eq!(parse_slice::<[u8; 4]>(&[1, 2]).err(), Some(Error::EndOfInput));
}

#[test]
fn extra_input_left() {
    assert_eq!(parse_slice::<u8>(&[1, 2]).err(), Some(Error::ExtraInputLeft));
}

#[test]
fn bool_out_of_bounds() {
    assert_eq!(parse_slice::<bool>(&[2]).err(), Some(Error::OutOfBounds));
    assert_eq!(parse_slice::<bool>(&[1]).ok(), Some(true));
}

#[test]
fn string_not_utf8() {
    let data = [0, 0, 0, 0, 0, 0, 0, 2, 0xff, 0xfe];
    assert_eq!(parse_slice::<LpString>(&data).err(), Some(Error::Utf8));
}

#[test]
fn string_roundtrip() {
    let s = LpString(String::from("héllo"));
    let data = output(&s);
    assert_eq!(&data[..8], &[0, 0, 0, 0, 0, 0, 0, 6]);
    let back = parse_slice::<LpString>(&data).unwrap();
    assert_eq!(back.0, "héllo");
}

#[test]
fn length_out_of_bounds() {
    let data = [0x80, 0, 0, 0, 0, 0, 0, 0];
    assert_eq!(parse_slice::<LpBytes>(&data).err(), Some(Error::OutOfBounds));
}

#[test]
fn bytes_length_prefix() {
    let data = output(&LpBytes(vec![7, 8, 9]));
    assert_eq!(data, vec![0, 0, 0, 0, 0, 0, 0, 3, 7, 8, 9]);
}

#[test]
fn sha256_of_empty() {
    let h = bytes_hash(&[]);
    assert_eq!(
        h.into_bytes(),
        [
            0xe3, 0xb0, 0xc4, 0x42, 0x98, 0xfc, 0x1c, 0x14, 0x9a, 0xfb, 0xf4, 0xc8, 0x99, 0x6f,
            0xb9, 0x24, 0x27, 0xae, 0x41, 0xe4, 0x64, 0x9b, 0x93, 0x4c, 0xa4, 0x95, 0x99, 0x1b,
            0x78, 0x52, 0xb8, 0x55,
        ]
    );
}

#[test]
fn hash_with_zero_half() {
    let mut data = [0u8; 32];
    data[31] = 1;
    assert_eq!(parse_slice::<object_rainbow::hash::Hash>(&data).err(), Some(Error::Zero));
}

#[test]
fn uneven_tuple_of_arrays() {
    let data = [1u8, 1, 2];
    let r = <TupleOfArrays<u8, bool> as Parse>::parse(Input::new(&data));
    assert_eq!(r.err(), Some(Error::Parse));
    let ok = <TupleOfArrays<u8, bool> as Parse>::parse(Input::new(&[5, 6, 1, 0])).unwrap();
    assert_eq!(ok.0, vec![5, 6]);
    assert_eq!(ok.1, vec![true, false]);
}

#[test]
fn hash_hex_digits() {
    let h = bytes_hash(&[]);
    assert_eq!(
        String::from_utf8(h.hex()).unwrap(),
        "E3B0C44298FC1C149AFBF4C8996FB92427AE41E4649B934CA495991B7852B855"
    );
    let none = object_rainbow::hash::OptionalHash::none();
    assert_eq!(none.display(), b"NONE".to_vec());
    let some = object_rainbow::hash::OptionalHash::from_hash(h);
    assert_eq!(some.display(), h.hex());
}

#[test]
fn hash_from_hex() {
    let h = object_rainbow::hash::Hash::from_hex(
        b"e3b0c44298fc1c149afbf4c8996fb92427ae41e4649b934ca495991b7852B855",
    )
    .unwrap();
    assert_eq!(h.into_bytes(), bytes_hash(&[]).into_bytes());
    assert_eq!(
        object_rainbow::hash::Hash::from_hex(b"abc").err(),
        Some(HexError::OddLength)
    );
    assert_eq!(
        object_rainbow::hash::Hash::from_hex(b"abcd").err(),
        Some(HexError::InvalidStringLength)
    );
    let mut bad = *b"e3b0c44298fc1c149afbf4c8996fb92427ae41e4649b934ca495991b7852b855";
    bad[5] = b'g';
    bad[9] = b'z';
    assert_eq!(
        object_rainbow::hash::Hash::from_hex(&bad).err(),
        Some(HexError::InvalidHexCharacter { c: 'g', index: 5 })
    );
}

#[test]
fn hash_from_hex_refuses_zero_half() {
    let zeros = [b'0'; 64];
    assert_eq!(
        object_rainbow::hash::Hash::from_hex(&zeros).err(),
        Some(HexError::Zero)
    );
    let mut half = [b'0'; 64];
    half[40] = b'1';
    assert_eq!(
        object_rainbow::hash::Hash::from_hex(&half).err(),
        Some(HexError::Zero)
    );
    let mut first = [b'0'; 64];
    first[31] = b'1';
    let h = object_rainbow::hash::Hash::from_hex(&first).unwrap();
    let mut expected = [0u8; 32];
    expected[15] = 1;
    assert_eq!(h.into_bytes(), expected);
}
