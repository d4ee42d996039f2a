use bittorrentclient::decode::decode_bencoded_value;
use bittorrentclient::value::Value;

/// What a decoded value is, for quick structural comparisons.
fn as_integer(v: &Value) -> i64 {
    match v {
        Value::Integer(n) => *n,
        _ => panic!("expected an integer"),
    }
}

fn as_bytes(v: &Value) -> Vec<u8> {
    match v {
        Value::ByteString(b) => b.clone(),
        _ => panic!("expected a byte string"),
    }
}

fn decode_ok(s: &str) -> Value {
    decode_bencoded_value(s).expect("decoding failed").0
}

/// Recursively compares two decoded values.
fn values_equal(a: &Value, b: &Value) -> bool {
    match (a, b) {
        (Value::Integer(x), Value::Integer(y)) => x == y,
        (Value::ByteString(x), Value::ByteString(y)) => x == y,
        (Value::List(xs), Value::List(ys)) => {
            xs.len() == ys.len() && xs.iter().zip(ys.iter()).all(|(x, y)| values_equal(x, y))
        }
        (Value::Dictionary(xs), Value::Dictionary(ys)) => {
            xs.len() == ys.len()
                && xs
                    .iter()
                    .zip(ys.iter())
                    .all(|((kx, vx), (ky, vy))| kx == ky && values_equal(vx, vy))
        }
        _ => false,
    }
}

#[test]
fn test_intergers() {
    let mut expected: i64;

    expected = 52;
    assert_eq!(as_integer(&decode_ok("i52e")), expected);
    expected = -52;
    assert_eq!(as_integer(&decode_ok("i-52e")), expected);
    expected = 0;
    assert_eq!(as_integer(&decode_ok("i0e")), expected);
    expected = 51322424;
    assert_eq!(as_integer(&decode_ok("i51322424e")), expected);
}

#[test]
fn test_strings() {
    let mut expected: String;

    expected = "hell".to_string();
    assert_eq!(as_bytes(&decode_ok("4:hell")), expected.as_bytes().to_vec());
    expected = "hello".to_string();
    assert_eq!(as_bytes(&decode_ok("5:hello")), expected.as_bytes().to_vec());
    expected = "hello world".to_string();
    assert_eq!(
        as_bytes(&decode_ok("11:hello world")),
        expected.as_bytes().to_vec()
    );
    expected = "Rust Is AwEsOmE".to_string();
    assert_eq!(
        as_bytes(&decode_ok("15:Rust Is AwEsOmE")),
        expected.as_bytes().to_vec()
    );
}

fn bytestring(s: &str) -> Value {
    Value::ByteString(s.as_bytes().to_vec())
}

#[test]
fn test_lists() {
    let mut expected: Value;

    // Test case 1: List of integers
    expected = Value::List(vec![Value::Integer(42), Value::Integer(52)]);
    let returnedresult = decode_ok("li42ei52ee");
    assert!(values_equal(&returnedresult, &expected), "Test case 1 failed!");

    // Test case 2: List of string + integer
    expected = Value::List(vec![bytestring("hello"), Value::Integer(42)]);
    let returnedresult = decode_ok("l5:helloi42ee");
    assert!(values_equal(&returnedresult, &expected), "Test case 2 failed!");

    // Test case 3: List with nested list
    expected = Value::List(vec![
        bytestring("a"),
        Value::List(vec![bytestring("nested")]),
        bytestring("list"),
    ]);
    let returnedresult = decode_ok("l1:al6:nestede4:liste");
    assert!(values_equal(&returnedresult, &expected), "Test case 3 failed!");

    // Test case 4: Empty list
    expected = Value::List(vec![]);
    let returnedresult = decode_ok("le");
    assert!(values_equal(&returnedresult, &expected), "Test case 4 failed!");
}

#[test]
fn test_dicts() {}
