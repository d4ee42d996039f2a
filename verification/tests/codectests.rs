use bittorrentclient::decode::{decode_bencoded_value, decode_value, DecodeError};
use bittorrentclient::encode::encode;
use bittorrentclient::value::Value;

fn decode_all(s: &[u8]) -> (Value, usize) {
    decode_value(s, 0).expect("decoding failed")
}

fn decode_err(s: &[u8]) -> DecodeError {
    match decode_value(s, 0) {
        Err(e) => e,
        Ok(_) => panic!("expected a decode error"),
    }
}

#[test]
fn integer_edges() {
    let (v, end) = decode_all(b"i0e");
    assert!(matches!(v, Value::Integer(0)));
    assert_eq!(end, 3);

    assert_eq!(decode_err(b"i-0e"), DecodeError::InvalidInteger);
    assert_eq!(decode_err(b"i03e"), DecodeError::InvalidInteger);

    let (v, _) = decode_all(b"i-3e");
    assert!(matches!(v, Value::Integer(-3)));
}

#[test]
fn integer_extremes() {
    let (v, _) = decode_all(b"i9223372036854775807e");
    assert!(matches!(v, Value::Integer(i64::MAX)));
    let (v, _) = decode_all(b"i-9223372036854775808e");
    assert!(matches!(v, Value::Integer(i64::MIN)));
    assert_eq!(
        decode_err(b"i9223372036854775808e"),
        DecodeError::InvalidInteger
    );
    assert_eq!(
        decode_err(b"i-9223372036854775809e"),
        DecodeError::InvalidInteger
    );
    assert_eq!(
        decode_err(b"i99999999999999999999999999e"),
        DecodeError::InvalidInteger
    );
}

#[test]
fn string_exactness() {
    let (v, end) = decode_all(b"4:spam");
    match v {
        Value::ByteString(b) => assert_eq!(b, b"spam".to_vec()),
        _ => panic!("expected a byte string"),
    }
    // The whole input is consumed: the remainder is empty.
    assert_eq!(end, 6);

    let (v, end) = decode_all(b"0:");
    match v {
        Value::ByteString(b) => assert_eq!(b, Vec::<u8>::new()),
        _ => panic!("expected a byte string"),
    }
    assert_eq!(end, 2);
}

#[test]
fn list_nesting() {
    let (v, _) = decode_all(b"l4:spam4:eggse");
    match v {
        Value::List(es) => {
            assert_eq!(es.len(), 2);
            match (&es[0], &es[1]) {
                (Value::ByteString(a), Value::ByteString(b)) => {
                    assert_eq!(a, &b"spam".to_vec());
                    assert_eq!(b, &b"eggs".to_vec());
                }
                _ => panic!("expected byte strings"),
            }
        }
        _ => panic!("expected a list"),
    }

    let (v, _) = decode_all(b"le");
    match v {
        Value::List(es) => assert_eq!(es.len(), 0),
        _ => panic!("expected a list"),
    }
}

#[test]
fn dictionary_lookup_and_reorder() {
    let (v, _) = decode_all(b"d3:cow3:moo4:spam4:eggse");
    match &v {
        Value::Dictionary(ps) => {
            assert_eq!(ps.len(), 2);
            assert_eq!(ps[0].0, b"cow".to_vec());
            assert_eq!(ps[1].0, b"spam".to_vec());
            match (&ps[0].1, &ps[1].1) {
                (Value::ByteString(a), Value::ByteString(b)) => {
                    assert_eq!(a, &b"moo".to_vec());
                    assert_eq!(b, &b"eggs".to_vec());
                }
                _ => panic!("expected byte strings"),
            }
        }
        _ => panic!("expected a dictionary"),
    }

    // Keys out of order decode fine and are reordered on re-encode.
    let (v, _) = decode_all(b"d4:spam4:eggs3:cow3:mooe");
    assert_eq!(encode(&v), b"d3:cow3:moo4:spam4:eggse".to_vec());
}

#[test]
fn truncation_safety() {
    assert_eq!(decode_err(b"i52"), DecodeError::UnexpectedEnd);
    // Claims four bytes, supplies two.
    assert_eq!(decode_err(b"4:ab"), DecodeError::UnexpectedEnd);
    // Missing the closing terminator.
    assert_eq!(decode_err(b"l4:spam"), DecodeError::UnterminatedContainer);
    assert_eq!(decode_err(b""), DecodeError::UnexpectedEnd);
}

#[test]
fn decode_error_variants() {
    assert_eq!(decode_err(b"x"), DecodeError::InvalidLength);
    assert_eq!(decode_err(b"-4:spam"), DecodeError::InvalidLength);
    assert_eq!(decode_err(b"05:hello"), DecodeError::InvalidLength);
    assert_eq!(decode_err(b"iabce"), DecodeError::InvalidInteger);
    assert_eq!(decode_err(b"ie"), DecodeError::InvalidInteger);
    assert_eq!(decode_err(b"di1e3:onee"), DecodeError::NonStringDictKey);
    assert_eq!(decode_err(b"d3:cow"), DecodeError::UnexpectedEnd);
    assert_eq!(decode_err(b"d3:cow3:moo"), DecodeError::UnterminatedContainer);
}

#[test]
fn round_trip_canonical() {
    // For canonical bytes, encode(decode(s)) == s.
    let cases: Vec<&[u8]> = vec![
        b"i0e",
        b"i-52e",
        b"4:spam",
        b"0:",
        b"le",
        b"l4:spami7ee",
        b"de",
        b"d3:cow3:moo4:spam4:eggse",
        b"d1:ad1:bl1:c1:dee1:ei-1ee",
    ];
    for s in cases {
        let (v, end) = decode_all(s);
        assert_eq!(end, s.len());
        assert_eq!(encode(&v), s.to_vec());
    }
}

#[test]
fn normalization_idempotence() {
    // encode(decode(encode(decode(s)))) == encode(decode(s)), also for a
    // non-canonical s whose keys are out of order.
    let s: &[u8] = b"d4:spam4:eggs3:cow3:moo1:zd1:bi1e1:ai2eee";
    let (v, _) = decode_all(s);
    let once = encode(&v);
    let (v2, _) = decode_all(&once);
    let twice = encode(&v2);
    assert_eq!(once, twice);
    // The non-canonical input itself is not reproduced.
    assert_ne!(once, s.to_vec());
}

#[test]
fn decode_at_offset() {
    // Decoding starts exactly at the given offset and reports where the
    // value ended.
    let s: &[u8] = b"li42ei7ee";
    let (v, end) = decode_value(s, 1).expect("decoding failed");
    assert!(matches!(v, Value::Integer(42)));
    assert_eq!(end, 5);
}

#[test]
fn decode_from_text_argument() {
    let (v, end) = decode_bencoded_value("d3:foo3:bare").expect("decoding failed");
    match v {
        Value::Dictionary(ps) => {
            assert_eq!(ps.len(), 1);
            assert_eq!(ps[0].0, b"foo".to_vec());
        }
        _ => panic!("expected a dictionary"),
    }
    assert_eq!(end, 12);
}

#[test]
fn encoder_exact_bytes() {
    assert_eq!(encode(&Value::Integer(0)), b"i0e".to_vec());
    assert_eq!(encode(&Value::Integer(-52)), b"i-52e".to_vec());
    assert_eq!(encode(&Value::Integer(i64::MIN)), b"i-9223372036854775808e".to_vec());
    assert_eq!(encode(&Value::ByteString(Vec::new())), b"0:".to_vec());
    assert_eq!(
        encode(&Value::List(vec![Value::ByteString(b"ab".to_vec()), Value::Integer(3)])),
        b"l2:abi3ee".to_vec()
    );
    // Duplicate keys keep their stored order among equals.
    let v = Value::Dictionary(vec![
        (b"b".to_vec(), Value::Integer(1)),
        (b"a".to_vec(), Value::Integer(2)),
        (b"b".to_vec(), Value::Integer(3)),
    ]);
    assert_eq!(encode(&v), b"d1:ai2e1:bi1e1:bi3ee".to_vec());
}
