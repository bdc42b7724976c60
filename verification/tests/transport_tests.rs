use nrepl_client::NreplError;
use nrepl_client::codec::Message;
use nrepl_client::codec::Value;
use nrepl_client::codec::encode_message;
use nrepl_client::transport::Transport;

fn one_message() -> Vec<u8> {
    encode_message(&Message {
        pairs: vec![
            (b"id".to_vec(), Value::Int(7)),
            (b"out".to_vec(), Value::Text(b"hello".to_vec())),
        ],
    })
}

#[test]
fn incremental_framing_across_chunks() {
    let bytes = one_message();
    for cut in 1..bytes.len() {
        let mut t = Transport::new();
        t.feed(&bytes[..cut]);
        // A timed-out read delivers nothing; the partial message stays put.
        assert!(matches!(t.try_next_message(), Ok(None)));
        assert!(t.is_connected());
        t.feed(&bytes[cut..]);
        match t.try_next_message() {
            Ok(Some(m)) => assert_eq!(m.pairs.len(), 2),
            _ => panic!("the reassembled message must decode"),
        }
        // Nothing was lost and nothing duplicated: the accumulator is empty.
        assert!(matches!(t.try_next_message(), Ok(None)));
    }
}

#[test]
fn accumulator_survives_many_timeouts() {
    let bytes = one_message();
    let mut t = Transport::new();
    for b in bytes.iter() {
        // One byte per "read", a decode attempt (as after a timeout) between.
        assert!(matches!(t.try_next_message(), Ok(None)));
        t.feed(std::slice::from_ref(b));
    }
    assert!(matches!(t.try_next_message(), Ok(Some(_))));
}

#[test]
fn coalesced_messages_come_out_one_by_one() {
    let mut bytes = one_message();
    bytes.extend_from_slice(&one_message());
    let mut t = Transport::new();
    t.feed(&bytes);
    assert!(matches!(t.try_next_message(), Ok(Some(_))));
    assert!(matches!(t.try_next_message(), Ok(Some(_))));
    assert!(matches!(t.try_next_message(), Ok(None)));
}

#[test]
fn malformed_bytes_are_fatal() {
    let mut t = Transport::new();
    t.feed(b"not bencode");
    assert!(matches!(t.try_next_message(), Err(NreplError::ProtocolError)));
    assert!(!t.is_connected());
}

#[test]
fn closed_flag_is_permanent() {
    let mut t = Transport::new();
    assert!(t.is_connected());
    t.mark_closed();
    assert!(!t.is_connected());
    t.feed(b"d");
    assert!(!t.is_connected());
}
