use nrepl_client::NreplError;
use nrepl_client::client::Client;
use nrepl_client::client::NetEvent;
use nrepl_client::client::Step;
use nrepl_client::codec::Message;
use nrepl_client::codec::Value;
use nrepl_client::codec::encode_message;
use nrepl_client::correlate::finish_eval;

fn fragment(pairs: Vec<(Vec<u8>, Value)>) -> Vec<u8> {
    encode_message(&Message { pairs })
}

fn done_fragment(id: i64) -> Vec<u8> {
    fragment(vec![
        (b"id".to_vec(), Value::Int(id)),
        (
            b"status".to_vec(),
            Value::List(vec![Value::Text(b"done".to_vec())]),
        ),
    ])
}

#[test]
fn eval_aggregation() {
    let mut c = Client::new();
    let (bytes, mut p) = c.begin_eval(b"(print)").unwrap();
    assert!(!bytes.is_empty());
    let id = p.id as i64;
    assert_eq!(id, 1);
    let mut feed = fragment(vec![
        (b"id".to_vec(), Value::Int(id)),
        (b"out".to_vec(), Value::Text(b"a".to_vec())),
    ]);
    feed.extend_from_slice(&fragment(vec![
        (b"id".to_vec(), Value::Int(id)),
        (b"out".to_vec(), Value::Text(b"b".to_vec())),
    ]));
    feed.extend_from_slice(&fragment(vec![
        (b"id".to_vec(), Value::Int(id)),
        (b"value".to_vec(), Value::Text(b"3".to_vec())),
    ]));
    feed.extend_from_slice(&done_fragment(id));
    assert_eq!(c.pump(&mut p, NetEvent::Bytes(feed)), Step::Terminal);
    let r = finish_eval(p);
    assert_eq!(r.output, b"ab".to_vec());
    assert_eq!(r.value, Some(b"3".to_vec()));
    assert!(!r.has_error);
    assert!(r.error.is_empty());
}

#[test]
fn multi_value_eval_keeps_the_later_value() {
    let mut c = Client::new();
    let (_bytes, mut p) = c.begin_eval(b"1 2").unwrap();
    let id = p.id as i64;
    let mut feed = fragment(vec![
        (b"id".to_vec(), Value::Int(id)),
        (b"value".to_vec(), Value::Text(b"1".to_vec())),
    ]);
    feed.extend_from_slice(&fragment(vec![
        (b"id".to_vec(), Value::Int(id)),
        (b"value".to_vec(), Value::Text(b"2".to_vec())),
    ]));
    feed.extend_from_slice(&done_fragment(id));
    assert_eq!(c.pump(&mut p, NetEvent::Bytes(feed)), Step::Terminal);
    let r = finish_eval(p);
    assert_eq!(r.value, Some(b"2".to_vec()));
}

#[test]
fn stale_fragment_is_ignored() {
    let mut c = Client::new();
    let (_bytes, mut p) = c.begin_eval(b"1").unwrap();
    let id = p.id as i64;
    let mut feed = fragment(vec![
        (b"id".to_vec(), Value::Int(999)),
        (b"out".to_vec(), Value::Text(b"noise".to_vec())),
        (b"value".to_vec(), Value::Text(b"junk".to_vec())),
    ]);
    feed.extend_from_slice(&fragment(vec![
        (b"id".to_vec(), Value::Int(id)),
        (b"value".to_vec(), Value::Text(b"1".to_vec())),
    ]));
    feed.extend_from_slice(&done_fragment(id));
    assert_eq!(c.pump(&mut p, NetEvent::Bytes(feed)), Step::Terminal);
    let r = finish_eval(p);
    assert!(r.output.is_empty());
    assert_eq!(r.value, Some(b"1".to_vec()));
    assert!(!r.has_error);
}

#[test]
fn error_fragments_set_the_flag_and_concatenate() {
    let mut c = Client::new();
    let (_bytes, mut p) = c.begin_eval(b"(boom)").unwrap();
    let id = p.id as i64;
    let mut feed = fragment(vec![
        (b"id".to_vec(), Value::Int(id)),
        (b"err".to_vec(), Value::Text(b"division ".to_vec())),
    ]);
    feed.extend_from_slice(&fragment(vec![
        (b"id".to_vec(), Value::Int(id)),
        (b"ex".to_vec(), Value::Text(b"by zero".to_vec())),
    ]));
    feed.extend_from_slice(&done_fragment(id));
    assert_eq!(c.pump(&mut p, NetEvent::Bytes(feed)), Step::Terminal);
    let r = finish_eval(p);
    assert!(r.has_error);
    assert_eq!(r.error, b"division by zero".to_vec());
}

#[test]
fn deadline_is_a_timeout_and_keeps_buffered_bytes() {
    let mut c = Client::new();
    let (_bytes, mut p) = c.begin_eval(b"(slow)").unwrap();
    let id = p.id as i64;
    // A partial fragment arrives, then the overall deadline elapses.
    let whole = done_fragment(id);
    let partial = whole[..whole.len() - 3].to_vec();
    assert_eq!(c.pump(&mut p, NetEvent::Bytes(partial)), Step::Continue);
    assert_eq!(
        c.pump(&mut p, NetEvent::TimedOut),
        Step::Fail(NreplError::Timeout)
    );
    // The connection stays usable and no buffered byte was dropped: the
    // remaining bytes still complete the message for a later exchange.
    assert!(c.is_connected());
    assert_eq!(
        c.pump(&mut p, NetEvent::Bytes(whole[whole.len() - 3..].to_vec())),
        Step::Terminal
    );
}

#[test]
fn closed_detection_stops_every_operation() {
    let mut c = Client::new();
    let (_bytes, mut p) = c.begin_eval(b"1").unwrap();
    assert_eq!(
        c.pump(&mut p, NetEvent::Eof),
        Step::Fail(NreplError::ConnectionClosed)
    );
    assert!(!c.is_connected());
    // Every further operation fails at once, without any I/O.
    assert!(matches!(
        c.begin_eval(b"2"),
        Err(NreplError::ConnectionClosed)
    ));
    assert!(matches!(c.begin_clone(), Err(NreplError::ConnectionClosed)));
    assert!(matches!(
        c.begin_describe(),
        Err(NreplError::ConnectionClosed)
    ));
    assert!(matches!(
        c.begin_interrupt(),
        Err(NreplError::ConnectionClosed)
    ));
    assert_eq!(
        c.pump(&mut p, NetEvent::Bytes(b"anything".to_vec())),
        Step::Fail(NreplError::ConnectionClosed)
    );
}

#[test]
fn read_failure_is_io_error_and_fatal() {
    let mut c = Client::new();
    let (_bytes, mut p) = c.begin_eval(b"1").unwrap();
    assert_eq!(
        c.pump(&mut p, NetEvent::ReadFailed),
        Step::Fail(NreplError::IoError)
    );
    assert!(!c.is_connected());
}

#[test]
fn malformed_response_is_a_protocol_error() {
    let mut c = Client::new();
    let (_bytes, mut p) = c.begin_eval(b"1").unwrap();
    assert_eq!(
        c.pump(&mut p, NetEvent::Bytes(b"garbage".to_vec())),
        Step::Fail(NreplError::ProtocolError)
    );
    assert!(!c.is_connected());
}

#[test]
fn session_propagation() {
    let mut c = Client::new();
    // Before any clone, requests carry no session field.
    let (bytes, _p) = c.begin_eval(b"1").unwrap();
    let no_session = bytes.windows(9).all(|w| w != b"7:session");
    assert!(no_session);
    // The peer answers the clone with a new session token.
    let (_bytes, mut p) = c.begin_clone().unwrap();
    let id = p.id as i64;
    let feed = fragment(vec![
        (b"id".to_vec(), Value::Int(id)),
        (b"new-session".to_vec(), Value::Text(b"S1".to_vec())),
        (
            b"status".to_vec(),
            Value::List(vec![Value::Text(b"done".to_vec())]),
        ),
    ]);
    assert_eq!(c.pump(&mut p, NetEvent::Bytes(feed)), Step::Terminal);
    assert_eq!(c.finish_clone(&p).unwrap(), b"S1".to_vec());
    // Every subsequent request now carries session "S1".
    let (eval_bytes, _p2) = c.begin_eval(b"1").unwrap();
    let expected = b"7:session2:S1";
    assert!(eval_bytes.windows(expected.len()).any(|w| w == expected));
    let (int_bytes, _p3) = c.begin_interrupt().unwrap();
    assert!(int_bytes.windows(expected.len()).any(|w| w == expected));
    let (clone_bytes, _p4) = c.begin_clone().unwrap();
    assert!(clone_bytes.windows(expected.len()).any(|w| w == expected));
}

#[test]
fn clone_without_new_session_is_a_protocol_error() {
    let mut c = Client::new();
    let (_bytes, mut p) = c.begin_clone().unwrap();
    let id = p.id as i64;
    let feed = done_fragment(id);
    assert_eq!(c.pump(&mut p, NetEvent::Bytes(feed)), Step::Terminal);
    assert!(matches!(
        c.finish_clone(&p),
        Err(NreplError::ProtocolError)
    ));
    assert!(!c.is_connected());
}

#[test]
fn describe_returns_the_full_response() {
    let mut c = Client::new();
    let (bytes, mut p) = c.begin_describe().unwrap();
    assert_eq!(bytes, b"d2:op8:describe2:idi1ee".to_vec());
    let id = p.id as i64;
    let feed = fragment(vec![
        (b"id".to_vec(), Value::Int(id)),
        (
            b"ops".to_vec(),
            Value::Dict(vec![(b"eval".to_vec(), Value::Dict(vec![]))]),
        ),
        (
            b"status".to_vec(),
            Value::List(vec![Value::Text(b"done".to_vec())]),
        ),
    ]);
    assert_eq!(c.pump(&mut p, NetEvent::Bytes(feed)), Step::Terminal);
    let m = c.finish_describe(p);
    assert_eq!(m.pairs.len(), 3);
    assert_eq!(m.pairs[1].0, b"ops".to_vec());
}

#[test]
fn interrupt_names_the_last_eval() {
    let mut c = Client::new();
    let (_bytes, _p) = c.begin_eval(b"(slow)").unwrap();
    let (int_bytes, _p2) = c.begin_interrupt().unwrap();
    let expected = b"12:interrupt-idi1e";
    assert!(int_bytes.windows(expected.len()).any(|w| w == expected));
}

#[test]
fn eval_request_bytes_are_exact() {
    let mut c = Client::new();
    let (bytes, _p) = c.begin_eval(b"(+ 1 2)").unwrap();
    assert_eq!(bytes, b"d2:op4:eval2:idi1e4:code7:(+ 1 2)e".to_vec());
}

#[test]
fn fresh_ids_increase() {
    let mut c = Client::new();
    let (_b1, p1) = c.begin_eval(b"1").unwrap();
    let (_b2, p2) = c.begin_eval(b"2").unwrap();
    assert_eq!(p1.id, 1);
    assert_eq!(p2.id, 2);
}

#[test]
fn set_timeouts_is_recorded() {
    let mut c = Client::new();
    c.set_timeouts(1234, 567);
    assert_eq!(c.read_timeout_ms, 1234);
    assert_eq!(c.write_timeout_ms, 567);
}
