use retf::decoder::Decoder;
use retf::encoder::Encoder;
use retf::term::{DecodeError, ErlangTerm};

fn roundtrip(bytes: &[u8]) {
    let mut decoder = Decoder::new(bytes.to_vec());
    let term = decoder.decode().expect("decoding failed");
    assert_eq!(decoder.offset(), bytes.len());
    let mut encoder = Encoder::new();
    encoder.encode(&term).expect("encoding failed");
    assert_eq!(encoder.into_bytes(), bytes.to_vec());
}

#[test]
fn roundtrip_atom_cache_ref() {
    roundtrip(&[82, 7]);
}

#[test]
fn roundtrip_integers() {
    roundtrip(&[97, 0]);
    roundtrip(&[97, 255]);
    roundtrip(&[98, 0, 0, 1, 0]);
    roundtrip(&[98, 255, 255, 255, 255]);
    roundtrip(&[98, 119, 53, 148, 0]);
}

#[test]
fn roundtrip_float() {
    roundtrip(&[70, 63, 192, 0, 0, 0, 0, 0, 0]);
}

#[test]
fn roundtrip_atom() {
    roundtrip(&[115, 2, 111, 107]);
    // a 256-byte atom takes the 2-byte length form
    let mut bytes = vec![100, 1, 0];
    bytes.extend(vec![97u8; 256]);
    roundtrip(&bytes);
}

#[test]
fn roundtrip_string() {
    roundtrip(&[107, 0, 2, 111, 107]);
}

#[test]
fn roundtrip_tuple() {
    roundtrip(&[104, 3, 97, 1, 97, 2, 97, 3]);
    roundtrip(&[104, 0]);
}

#[test]
fn roundtrip_list() {
    roundtrip(&[108, 0, 0, 0, 2, 98, 0, 0, 1, 44, 98, 0, 0, 1, 144, 106]);
    roundtrip(&[108, 0, 0, 0, 0, 106]);
}

#[test]
fn roundtrip_binary() {
    roundtrip(&[109, 0, 0, 0, 3, 1, 2, 3]);
    roundtrip(&[109, 0, 0, 0, 0]);
}

#[test]
fn roundtrip_biginteger() {
    roundtrip(&[110, 4, 0, 0, 94, 208, 178]);
    roundtrip(&[110, 4, 1, 0, 94, 208, 178]);
}

#[test]
fn roundtrip_bitbinary() {
    roundtrip(&[77, 0, 0, 0, 2, 4, 1, 2]);
}

#[test]
fn roundtrip_nested() {
    // a tuple holding a list, an atom and a binary
    roundtrip(&[
        104, 3, 108, 0, 0, 0, 1, 97, 9, 106, 115, 1, 97, 109, 0, 0, 0, 2, 5, 6,
    ]);
}

#[test]
fn version_marker_is_transparent() {
    // decoding with and without the leading version marker gives one value
    let mut with_marker = Decoder::new(vec![131, 97, 1]);
    let mut without = Decoder::new(vec![97, 1]);
    let a = with_marker.decode().expect("decoding failed");
    let b = without.decode().expect("decoding failed");
    assert!(matches!(a, ErlangTerm::Integer(1)));
    assert!(matches!(b, ErlangTerm::Integer(1)));
}

#[test]
fn version_marker_is_transparent_on_errors() {
    // the marker shifts errors by one position, changing nothing else
    let mut with_marker = Decoder::new(vec![131, 255]);
    assert!(matches!(with_marker.decode(), Err(DecodeError::UnknownTag)));
    assert_eq!(with_marker.offset(), 2);
    let mut without = Decoder::new(vec![255]);
    assert!(matches!(without.decode(), Err(DecodeError::UnknownTag)));
    assert_eq!(without.offset(), 1);
}
