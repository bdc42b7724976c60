use nrepl_client::codec::Message;
use nrepl_client::codec::Parsed;
use nrepl_client::codec::Value;
use nrepl_client::codec::decode_message;
use nrepl_client::codec::encode_message;

fn msg(pairs: Vec<(Vec<u8>, Value)>) -> Message {
    Message { pairs }
}

fn value_eq(a: &Value, b: &Value) -> bool {
    match (a, b) {
        (Value::Text(x), Value::Text(y)) => x == y,
        (Value::Int(x), Value::Int(y)) => x == y,
        (Value::List(x), Value::List(y)) => {
            x.len() == y.len() && x.iter().zip(y.iter()).all(|(u, v)| value_eq(u, v))
        }
        (Value::Dict(x), Value::Dict(y)) => {
            x.len() == y.len()
                && x.iter().zip(y.iter()).all(|(u, v)| u.0 == v.0 && value_eq(&u.1, &v.1))
        }
        _ => false,
    }
}

fn msg_eq(a: &Message, b: &Message) -> bool {
    a.pairs.len() == b.pairs.len()
        && a.pairs.iter().zip(b.pairs.iter()).all(|(u, v)| u.0 == v.0 && value_eq(&u.1, &v.1))
}

fn round_trip(m: &Message) {
    let bytes = encode_message(m);
    match decode_message(bytes.as_slice()) {
        Parsed::Found(back, used) => {
            assert_eq!(used, bytes.len());
            assert!(msg_eq(m, &back));
        }
        _ => panic!("a complete encoding must decode"),
    }
}

#[test]
fn encode_exact_bytes() {
    let m = msg(vec![(b"op".to_vec(), Value::Text(b"eval".to_vec()))]);
    assert_eq!(encode_message(&m), b"d2:op4:evale".to_vec());
}

#[test]
fn encode_int_and_list() {
    let m = msg(vec![
        (b"id".to_vec(), Value::Int(7)),
        (
            b"status".to_vec(),
            Value::List(vec![Value::Text(b"done".to_vec())]),
        ),
    ]);
    assert_eq!(encode_message(&m), b"d2:idi7e6:statusl4:doneee".to_vec());
}

#[test]
fn round_trip_simple() {
    round_trip(&msg(vec![
        (b"op".to_vec(), Value::Text(b"eval".to_vec())),
        (b"id".to_vec(), Value::Int(7)),
        (b"code".to_vec(), Value::Text(b"(+ 1 2 3)".to_vec())),
    ]));
}

#[test]
fn round_trip_empty_message() {
    round_trip(&msg(vec![]));
}

#[test]
fn round_trip_empty_text() {
    round_trip(&msg(vec![(b"out".to_vec(), Value::Text(Vec::new()))]));
}

#[test]
fn round_trip_negative_and_extreme_ints() {
    round_trip(&msg(vec![
        (b"a".to_vec(), Value::Int(-42)),
        (b"b".to_vec(), Value::Int(0)),
        (b"c".to_vec(), Value::Int(i64::MAX)),
        (b"d".to_vec(), Value::Int(i64::MIN)),
    ]));
}

#[test]
fn round_trip_nested() {
    let ops = Value::Dict(vec![
        (b"eval".to_vec(), Value::Dict(vec![])),
        (b"clone".to_vec(), Value::Dict(vec![])),
    ]);
    round_trip(&msg(vec![
        (b"ops".to_vec(), ops),
        (
            b"mixed".to_vec(),
            Value::List(vec![
                Value::Int(1),
                Value::Text(b"two".to_vec()),
                Value::List(vec![Value::Int(3)]),
            ]),
        ),
    ]));
}

#[test]
fn decode_needs_more_on_truncation() {
    let m = msg(vec![(b"op".to_vec(), Value::Text(b"describe".to_vec()))]);
    let bytes = encode_message(&m);
    for cut in 0..bytes.len() {
        match decode_message(&bytes[..cut]) {
            Parsed::More => {}
            _ => panic!("a strict prefix must only ask for more bytes"),
        }
    }
}

#[test]
fn decode_rejects_malformed() {
    assert!(matches!(decode_message(b"x"), Parsed::Bad));
    assert!(matches!(decode_message(b"d2:ope"), Parsed::Bad));
    assert!(matches!(decode_message(b"di1e4:evale"), Parsed::Bad));
    assert!(matches!(decode_message(b"d2:idi01ee"), Parsed::Bad));
    assert!(matches!(decode_message(b"d2:idi-0ee"), Parsed::Bad));
    assert!(matches!(
        decode_message(b"d2:idi9223372036854775808ee"),
        Parsed::Bad
    ));
}

#[test]
fn decode_leaves_trailing_bytes() {
    let m = msg(vec![(b"id".to_vec(), Value::Int(1))]);
    let mut bytes = encode_message(&m);
    let first_len = bytes.len();
    let m2 = msg(vec![(b"id".to_vec(), Value::Int(2))]);
    bytes.extend_from_slice(&encode_message(&m2));
    match decode_message(bytes.as_slice()) {
        Parsed::Found(back, used) => {
            assert_eq!(used, first_len);
            assert!(msg_eq(&back, &m));
        }
        _ => panic!("the first of two concatenated messages must decode"),
    }
}
