use retf::encoder::Encoder;
use retf::term::{EncodeError, ErlangTerm};

#[test]
fn encode_integer_boundary() {
    // 255 still fits the compact form; 256 must take the wide form
    let mut encoder = Encoder::new();
    encoder.encode_integer(255);
    assert_eq!(encoder.into_bytes(), vec![97, 255]);
    let mut encoder = Encoder::new();
    encoder.encode_integer(256);
    assert_eq!(encoder.into_bytes(), vec![98, 0, 0, 1, 0]);
    let mut encoder = Encoder::new();
    encoder.encode_integer(-1);
    assert_eq!(encoder.into_bytes(), vec![98, 255, 255, 255, 255]);
}

#[test]
fn encode_atom_forms() {
    let mut encoder = Encoder::new();
    assert!(encoder.encode_atom(b"ok").is_ok());
    assert_eq!(encoder.into_bytes(), vec![115, 2, 111, 107]);
    // 256 bytes of text force the 2-byte length form
    let long = vec![97u8; 256];
    let mut encoder = Encoder::new();
    assert!(encoder.encode_atom(&long).is_ok());
    let mut expected = vec![100, 1, 0];
    expected.extend(long);
    assert_eq!(encoder.into_bytes(), expected);
    // beyond 65535 bytes no length field fits
    let huge = vec![97u8; 65536];
    let mut encoder = Encoder::new();
    assert!(matches!(encoder.encode_atom(&huge), Err(EncodeError::TooLarge)));
    assert_eq!(encoder.into_bytes(), Vec::<u8>::new());
}

#[test]
fn encode_string_form() {
    let mut encoder = Encoder::new();
    assert!(encoder.encode_string(b"ok").is_ok());
    assert_eq!(encoder.into_bytes(), vec![107, 0, 2, 111, 107]);
    let huge = vec![97u8; 65536];
    let mut encoder = Encoder::new();
    assert!(matches!(encoder.encode_string(&huge), Err(EncodeError::TooLarge)));
}

#[test]
fn encode_float_compact_only() {
    let mut encoder = Encoder::new();
    encoder.encode_float(0.125f64.to_bits());
    assert_eq!(encoder.into_bytes(), vec![70, 63, 192, 0, 0, 0, 0, 0, 0]);
}

#[test]
fn encode_atom_cache_ref_bytes() {
    let mut encoder = Encoder::new();
    encoder.encode_atom_cache_ref(9);
    assert_eq!(encoder.into_bytes(), vec![82, 9]);
}

#[test]
fn encode_binary_bytes() {
    let mut encoder = Encoder::new();
    assert!(encoder.encode_binary(&[1, 2, 3]).is_ok());
    assert_eq!(encoder.into_bytes(), vec![109, 0, 0, 0, 3, 1, 2, 3]);
}

#[test]
fn encode_biginteger_forms() {
    let mut encoder = Encoder::new();
    assert!(encoder.encode_biginteger(0, &[0, 94, 208, 178]).is_ok());
    assert_eq!(encoder.into_bytes(), vec![110, 4, 0, 0, 94, 208, 178]);
    // 256 magnitude bytes force the 4-byte length form
    let long = vec![1u8; 256];
    let mut encoder = Encoder::new();
    assert!(encoder.encode_biginteger(1, &long).is_ok());
    let mut expected = vec![111, 0, 0, 1, 0, 1];
    expected.extend(long);
    assert_eq!(encoder.into_bytes(), expected);
}

#[test]
fn encode_bitbinary_bytes() {
    let mut encoder = Encoder::new();
    assert!(encoder.encode_bitbinary(4, &[1, 2]).is_ok());
    assert_eq!(encoder.into_bytes(), vec![77, 0, 0, 0, 2, 4, 1, 2]);
}

#[test]
fn encode_tuple_forms() {
    let mut encoder = Encoder::new();
    let elements = vec![ErlangTerm::Integer(1), ErlangTerm::Integer(2), ErlangTerm::Integer(3)];
    assert!(encoder.encode_tuple(&elements).is_ok());
    assert_eq!(encoder.into_bytes(), vec![104, 3, 97, 1, 97, 2, 97, 3]);
}

#[test]
fn encode_list_always_proper() {
    let mut encoder = Encoder::new();
    let elements = vec![ErlangTerm::Integer(300), ErlangTerm::Integer(400)];
    assert!(encoder.encode_list(&elements).is_ok());
    assert_eq!(
        encoder.into_bytes(),
        vec![108, 0, 0, 0, 2, 98, 0, 0, 1, 44, 98, 0, 0, 1, 144, 106],
    );
}

#[test]
fn encode_unsupported_variants_fail() {
    let pid = ErlangTerm::Pid(Box::new(ErlangTerm::Atom(b"n".to_vec())), 33, 0, 0);
    let mut encoder = Encoder::new();
    assert!(matches!(encoder.encode(&pid), Err(EncodeError::Unsupported)));
    assert_eq!(encoder.into_bytes(), Vec::<u8>::new());
    let mut encoder = Encoder::new();
    assert!(matches!(encoder.encode(&ErlangTerm::Nil), Err(EncodeError::Unsupported)));
    let mut encoder = Encoder::new();
    let reference = ErlangTerm::Reference(Box::new(ErlangTerm::Atom(b"n".to_vec())), vec![1], 0);
    assert!(matches!(encoder.encode(&reference), Err(EncodeError::Unsupported)));
    let mut encoder = Encoder::new();
    let legacy = ErlangTerm::LegacyFloat(b"1.25000000000000000000e-01".to_vec());
    assert!(matches!(encoder.encode(&legacy), Err(EncodeError::Unsupported)));
}

#[test]
fn encode_nested_unsupported_fails() {
    // a supported tuple carrying an unsupported element must not be silently
    // trimmed down
    let elements = vec![ErlangTerm::Integer(1), ErlangTerm::Nil];
    let mut encoder = Encoder::new();
    assert!(matches!(
        encoder.encode(&ErlangTerm::Tuple(elements)),
        Err(EncodeError::Unsupported),
    ));
    // the sink holds exactly the header and the elements before the refused
    // one, nothing of the refused element itself
    assert_eq!(encoder.into_bytes(), vec![104, 2, 97, 1]);
}
