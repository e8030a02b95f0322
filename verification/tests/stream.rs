use refix::framing::GarbledReason;
use refix::stream::Outcome;
use refix::{MessageStream, Tokenizer};

/// `|`-delimited readable string into SOH-delimited bytes.
fn to_wire(s: &str) -> Vec<u8> {
    s.replace('|', "\x01").into_bytes()
}

/// A complete, correctly-checksummed frame with a correct BodyLength.
fn construct_valid_frame(begin: &str, body: &str) -> Vec<u8> {
    let body = to_wire(body);
    let mut bytes = to_wire(&format!("8={begin}|9={}|", body.len()));
    bytes.extend_from_slice(&body);
    let sum = bytes.iter().fold(0u8, |acc, &b| acc.wrapping_add(b));
    bytes.extend_from_slice(&to_wire(&format!("10={sum:03}|")));
    bytes
}

/// Reads outcomes until the stream reports `Incomplete`, describing each.
fn drain(stream: &mut MessageStream) -> Vec<String> {
    let mut seen = Vec::new();
    loop {
        match stream.next_message() {
            Outcome::Message(message) => {
                let msg_type = String::from_utf8_lossy(message.get(35).unwrap()).into_owned();
                seen.push(format!("message {msg_type} ({} bytes)", message.bytes().len()));
            }
            Outcome::Garbled { reason, bytes } => {
                seen.push(format!("garbled {reason:?} {:?}", String::from_utf8_lossy(&bytes)));
            }
            Outcome::Incomplete => return seen,
        }
    }
}

#[test]
fn an_empty_stream_is_incomplete() {
    let mut stream = MessageStream::default();
    assert!(matches!(stream.next_message(), Outcome::Incomplete));
}

#[test]
fn a_whole_message_is_read_and_tokenised() {
    let frame = construct_valid_frame("FIX.4.4", "35=A|34=1|");
    let mut stream = MessageStream::default();
    stream.feed(&frame);
    match stream.next_message() {
        Outcome::Message(message) => {
            assert_eq!(message.bytes().as_ref(), frame.as_slice());
            assert_eq!(message.get(35), Some(b"A".as_slice()));
            assert_eq!(message.get_int(34), Ok(Some(1)));
        }
        _ => panic!("expected a message"),
    }
    assert!(matches!(stream.next_message(), Outcome::Incomplete));
}

#[test]
fn a_message_fed_byte_by_byte_appears_once_complete() {
    let frame = construct_valid_frame("FIX.4.4", "35=0|");
    let mut stream = MessageStream::default();
    for (i, byte) in frame.iter().enumerate() {
        assert!(matches!(stream.next_message(), Outcome::Incomplete), "after {i} bytes");
        stream.feed(&[*byte]);
    }
    assert_eq!(drain(&mut stream), vec![format!("message 0 ({} bytes)", frame.len())]);
}

#[test]
fn garbage_is_handed_back_before_the_next_message() {
    let frame = construct_valid_frame("FIX.4.4", "35=D|");
    let mut bytes = b"junk".to_vec();
    bytes.extend_from_slice(&frame);
    let mut stream = MessageStream::default();
    stream.feed(&bytes);
    assert_eq!(
        drain(&mut stream),
        vec![
            "garbled MissingBeginString \"junk\"".to_owned(),
            format!("message D ({} bytes)", frame.len()),
        ]
    );
}

#[test]
fn two_messages_in_one_feed_come_out_in_order() {
    let first = construct_valid_frame("FIX.4.4", "35=A|");
    let second = construct_valid_frame("FIXT.1.1", "35=5|");
    let mut stream = MessageStream::default();
    let mut bytes = first.clone();
    bytes.extend_from_slice(&second);
    stream.feed(&bytes);
    assert_eq!(
        drain(&mut stream),
        vec![
            format!("message A ({} bytes)", first.len()),
            format!("message 5 ({} bytes)", second.len()),
        ]
    );
}

#[test]
fn a_bad_checksum_is_garbled_and_the_stream_resyncs() {
    let mut bad = construct_valid_frame("FIX.4.4", "35=A|");
    let n = bad.len();
    bad[n - 2] = if bad[n - 2] == b'0' { b'1' } else { b'0' };
    let good = construct_valid_frame("FIX.4.4", "35=1|");
    let mut stream = MessageStream::default();
    stream.feed(&bad);
    stream.feed(&good);
    let mut reasons = Vec::new();
    let mut messages = 0;
    loop {
        match stream.next_message() {
            Outcome::Message(message) => {
                assert_eq!(message.get(35), Some(b"1".as_slice()));
                messages += 1;
            }
            Outcome::Garbled { reason, bytes } => {
                assert!(!bytes.is_empty());
                reasons.push(reason);
            }
            Outcome::Incomplete => break,
        }
    }
    assert_eq!(messages, 1);
    assert_eq!(reasons[0], GarbledReason::ChecksumMismatch);
}

#[test]
fn the_stream_tokenises_with_its_dialect() {
    let frame = construct_valid_frame("FIX.4.4", "35=0|5001=3|5002=a|b|58=ok|");
    let mut stream = MessageStream::new(Tokenizer::with_extra_length_tags(&[5001]));
    stream.feed(&frame);
    match stream.next_message() {
        Outcome::Message(message) => {
            assert_eq!(message.get(5002), Some(b"a\x01b".as_slice()));
            assert_eq!(message.get(58), Some(b"ok".as_slice()));
        }
        _ => panic!("expected a message"),
    }
}
