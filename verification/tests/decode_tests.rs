use retf::decoder::Decoder;
use retf::term::{DecodeError, ErlangTerm};

fn decode_one(bytes: &[u8]) -> ErlangTerm {
    let mut decoder = Decoder::new(bytes.to_vec());
    decoder.decode().expect("decoding failed")
}

#[test]
fn deserialize_int_test() {
    match decode_one(&[97, 1]) {
        ErlangTerm::Integer(1) => (),
        _ => panic!(),
    }
    match decode_one(&[98, 119, 53, 148, 0]) {
        ErlangTerm::Integer(2000000000) => (),
        _ => panic!(),
    }
}

#[test]
fn deserialize_atom_test() {
    match decode_one(&[100, 0, 2, 111, 107]) {
        ErlangTerm::Atom(text) => assert_eq!(text, b"ok".to_vec()),
        _ => panic!(),
    }
    match decode_one(&[115, 2, 111, 107]) {
        ErlangTerm::Atom(text) => assert_eq!(text, b"ok".to_vec()),
        _ => panic!(),
    }
}

#[test]
fn deserialize_float_test() {
    let bytes = [
        99, 49, 46, 50, 53, 48, 48, 48, 48, 48, 48, 48, 48, 48, 48, 48, 48, 48, 48, 48, 48, 48,
        48, 101, 45, 48, 49, 0, 0, 0, 0, 0,
    ];
    match decode_one(&bytes) {
        ErlangTerm::LegacyFloat(text) => {
            let f: f64 = std::str::from_utf8(&text).unwrap().parse().unwrap();
            assert_eq!(f, 1.25e-01);
        },
        _ => panic!(),
    }
}

#[test]
fn deserialize_pid_test() {
    let bytes = [
        103, 100, 0, 13, 110, 111, 110, 111, 100, 101, 64, 110, 111, 104, 111, 115, 116, 0, 0, 0,
        33, 0, 0, 0, 0, 0,
    ];
    match decode_one(&bytes) {
        ErlangTerm::Pid(node, 33, 0, 0) => match *node {
            ErlangTerm::Atom(text) => assert_eq!(text, b"nonode@nohost".to_vec()),
            _ => panic!(),
        },
        _ => panic!(),
    }
}

#[test]
fn deserialize_tuple_test() {
    for bytes in [vec![104, 3, 97, 1, 97, 2, 97, 3], vec![105, 0, 0, 0, 3, 97, 1, 97, 2, 97, 3]] {
        match decode_one(&bytes) {
            ErlangTerm::Tuple(elements) => {
                assert_eq!(elements.len(), 3);
                assert!(matches!(elements[0], ErlangTerm::Integer(1)));
                assert!(matches!(elements[1], ErlangTerm::Integer(2)));
                assert!(matches!(elements[2], ErlangTerm::Integer(3)));
            },
            _ => panic!(),
        }
    }
}

#[test]
fn deserialize_string_test() {
    match decode_one(&[107, 0, 2, 111, 107]) {
        ErlangTerm::Str(text) => assert_eq!(text, b"ok".to_vec()),
        _ => panic!(),
    }
}

#[test]
fn deserialize_list_test() {
    // proper list: a Nil tail is dropped
    match decode_one(&[108, 0, 0, 0, 2, 98, 0, 0, 1, 44, 98, 0, 0, 1, 144, 106]) {
        ErlangTerm::List(elements) => {
            assert_eq!(elements.len(), 2);
            assert!(matches!(elements[0], ErlangTerm::Integer(300)));
            assert!(matches!(elements[1], ErlangTerm::Integer(400)));
        },
        _ => panic!(),
    }
    // improper list: the non-Nil tail is folded in as one extra element
    match decode_one(&[108, 0, 0, 0, 1, 98, 0, 0, 1, 44, 98, 0, 0, 1, 144]) {
        ErlangTerm::List(elements) => {
            assert_eq!(elements.len(), 2);
            assert!(matches!(elements[0], ErlangTerm::Integer(300)));
            assert!(matches!(elements[1], ErlangTerm::Integer(400)));
        },
        _ => panic!(),
    }
}

#[test]
fn deserialize_binary_test() {
    match decode_one(&[109, 0, 0, 0, 3, 1, 2, 3]) {
        ErlangTerm::Binary(bytes) => assert_eq!(bytes, vec![1, 2, 3]),
        _ => panic!(),
    }
}

#[test]
fn deserialize_biginteger_test() {
    match decode_one(&[110, 4, 0, 0, 94, 208, 178]) {
        ErlangTerm::BigInteger(0, magnitude) => assert_eq!(magnitude, vec![0, 94, 208, 178]),
        _ => panic!(),
    }
    match decode_one(&[110, 4, 1, 0, 94, 208, 178]) {
        ErlangTerm::BigInteger(1, magnitude) => assert_eq!(magnitude, vec![0, 94, 208, 178]),
        _ => panic!(),
    }
}

#[test]
fn deserialize_reference_test() {
    let bytes = [
        114, 0, 3, 100, 0, 13, 110, 111, 110, 111, 100, 101, 64, 110, 111, 104, 111, 115, 116, 0,
        0, 0, 0, 188, 0, 0, 0, 0, 0, 0, 0, 0,
    ];
    match decode_one(&bytes) {
        ErlangTerm::Reference(node, ids, 0) => {
            match *node {
                ErlangTerm::Atom(text) => assert_eq!(text, b"nonode@nohost".to_vec()),
                _ => panic!(),
            }
            assert_eq!(ids, vec![188, 0, 0]);
        },
        _ => panic!(),
    }
}

#[test]
fn deserialize_full_test() {
    match decode_one(&[131, 100, 0, 2, 111, 107]) {
        ErlangTerm::Atom(text) => assert_eq!(text, b"ok".to_vec()),
        _ => panic!(),
    }
}

#[test]
fn deserialize_nil_and_cache_ref() {
    assert!(matches!(decode_one(&[106]), ErlangTerm::Nil));
    assert!(matches!(decode_one(&[82, 5]), ErlangTerm::AtomCacheRef(5)));
}

#[test]
fn deserialize_compact_float() {
    // big-endian IEEE-754 bit pattern of 0.125
    let bytes = [70, 63, 192, 0, 0, 0, 0, 0, 0];
    match decode_one(&bytes) {
        ErlangTerm::Float(bits) => assert_eq!(f64::from_bits(bits), 0.125f64),
        _ => panic!(),
    }
}

#[test]
fn deserialize_port_test() {
    let bytes = [102, 115, 1, 110, 0, 0, 0, 7, 2];
    match decode_one(&bytes) {
        ErlangTerm::Port(node, 7, 2) => match *node {
            ErlangTerm::Atom(text) => assert_eq!(text, b"n".to_vec()),
            _ => panic!(),
        },
        _ => panic!(),
    }
}

#[test]
fn deserialize_export_test() {
    let bytes = [113, 115, 1, 109, 115, 1, 102, 97, 2];
    match decode_one(&bytes) {
        ErlangTerm::Export(module, function, arity) => {
            match *module {
                ErlangTerm::Atom(text) => assert_eq!(text, b"m".to_vec()),
                _ => panic!(),
            }
            match *function {
                ErlangTerm::Atom(text) => assert_eq!(text, b"f".to_vec()),
                _ => panic!(),
            }
            assert!(matches!(*arity, ErlangTerm::Integer(2)));
        },
        _ => panic!(),
    }
}

#[test]
fn deserialize_new_fun_test() {
    // size (ignored), arity 2, 16 uniq bytes, index 1, one free variable,
    // then module, old-index, old-uniq and pid terms and the free variable
    let mut bytes = vec![112, 0, 0, 0, 50, 2];
    bytes.extend([9u8; 16]);
    bytes.extend([0, 0, 0, 1]); // index
    bytes.extend([0, 0, 0, 1]); // one free variable
    bytes.extend([115, 1, 109]); // module
    bytes.extend([97, 4]); // old index
    bytes.extend([97, 5]); // old uniq
    bytes.extend([103, 115, 1, 110, 0, 0, 0, 33, 0, 0, 0, 0, 0]); // pid
    bytes.extend([97, 7]); // free variable
    match decode_one(&bytes) {
        ErlangTerm::Fun { arity, uniq, index, num_free, module, old_index, old_uniq, pid, free_vars } => {
            assert_eq!(arity, 2);
            assert_eq!(uniq, vec![9u8; 16]);
            assert_eq!(index, 1);
            assert_eq!(num_free, 1);
            assert!(matches!(*module, ErlangTerm::Atom(_)));
            assert!(matches!(*old_index, ErlangTerm::Integer(4)));
            assert!(matches!(*old_uniq, ErlangTerm::Integer(5)));
            assert!(matches!(*pid, ErlangTerm::Pid(_, 33, 0, 0)));
            assert_eq!(free_vars.len(), 1);
            assert!(matches!(free_vars[0], ErlangTerm::Integer(7)));
        },
        _ => panic!(),
    }
}

#[test]
fn deserialize_legacy_fun_test() {
    // one free variable, then pid, module, index and uniq terms
    let mut bytes = vec![117, 0, 0, 0, 1];
    bytes.extend([103, 115, 1, 110, 0, 0, 0, 33, 0, 0, 0, 0, 0]); // pid
    bytes.extend([115, 1, 109]); // module
    bytes.extend([97, 4]); // index
    bytes.extend([97, 5]); // uniq
    bytes.extend([97, 7]); // free variable
    match decode_one(&bytes) {
        ErlangTerm::Fun { arity, uniq, index, num_free, module, old_index, old_uniq, pid, free_vars } => {
            assert_eq!(arity, 0);
            assert_eq!(uniq, vec![0u8; 16]);
            assert_eq!(index, 0);
            assert_eq!(num_free, 1);
            assert!(matches!(*module, ErlangTerm::Atom(_)));
            assert!(matches!(*old_index, ErlangTerm::Integer(4)));
            assert!(matches!(*old_uniq, ErlangTerm::Integer(5)));
            assert!(matches!(*pid, ErlangTerm::Pid(_, 33, 0, 0)));
            assert_eq!(free_vars.len(), 1);
            assert!(matches!(free_vars[0], ErlangTerm::Integer(7)));
        },
        _ => panic!(),
    }
}

#[test]
fn deserialize_bit_binary_test() {
    match decode_one(&[77, 0, 0, 0, 2, 4, 1, 2]) {
        ErlangTerm::BitBinary(4, bytes) => assert_eq!(bytes, vec![1, 2]),
        _ => panic!(),
    }
}

#[test]
fn unknown_tag_consumes_only_the_tag() {
    let mut decoder = Decoder::new(vec![255, 1, 2, 3]);
    assert!(matches!(decoder.decode(), Err(DecodeError::UnknownTag)));
    assert_eq!(decoder.offset(), 1);
}

#[test]
fn truncated_inputs_fail() {
    let mut decoder = Decoder::new(vec![]);
    assert!(matches!(decoder.decode(), Err(DecodeError::Truncated)));
    let mut decoder = Decoder::new(vec![98, 0, 0]);
    assert!(matches!(decoder.decode(), Err(DecodeError::Truncated)));
    let mut decoder = Decoder::new(vec![100, 0, 5, 111]);
    assert!(matches!(decoder.decode(), Err(DecodeError::Truncated)));
}

#[test]
fn malformed_float_text_fails() {
    let mut bytes = vec![99];
    bytes.extend([120u8; 26]); // 'x' repeated: no floating literal
    bytes.extend([0u8; 5]);
    let mut decoder = Decoder::new(bytes);
    assert!(matches!(decoder.decode(), Err(DecodeError::MalformedFloat)));
}

#[test]
fn reference_arity_exceeded_fails() {
    let mut decoder = Decoder::new(vec![114, 0, 4, 115, 1, 110]);
    assert!(matches!(decoder.decode(), Err(DecodeError::ReferenceArityExceeded)));
}
