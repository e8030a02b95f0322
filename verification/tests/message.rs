use bytes::Bytes;
use refix::framing::SOH;
use refix::message::RawField;
use refix::text::parse_i64;
use refix::{InvalidValue, RawMessage, MALFORMED_TAG};

fn message_of<V: AsRef<[u8]>>(fields: &[(u32, V)]) -> RawMessage {
    let mut bytes = Vec::new();
    let mut index = Vec::new();
    for (tag, value) in fields {
        bytes.extend_from_slice(tag.to_string().as_bytes());
        bytes.push(b'=');
        let value_start = bytes.len() as u32;
        bytes.extend_from_slice(value.as_ref());
        let value_end = bytes.len() as u32;
        bytes.push(SOH);
        index.push(RawField { tag: *tag, value_start, value_end });
    }
    RawMessage::new(Bytes::from(bytes), index)
}

#[test]
fn get_returns_first_occurrence() {
    let message = message_of(&[(35, "0"), (58, "first"), (58, "second")]);
    assert_eq!(message.get(58), Some(b"first".as_slice()));
}

#[test]
fn get_absent_tag() {
    let message = message_of(&[(35, "0")]);
    assert_eq!(message.get(58), None);
}

#[test]
fn get_str_returns_text() {
    let message = message_of(&[(58, "hello")]);
    assert_eq!(message.get_str(58), Ok(Some("hello")));
}

#[test]
fn get_str_absent_tag() {
    let message = message_of(&[(35, "0")]);
    assert_eq!(message.get_str(58), Ok(None));
}

#[test]
fn get_str_empty_value() {
    let message = message_of(&[(58, "")]);
    assert_eq!(message.get_str(58), Ok(Some("")));
}

#[test]
fn get_str_rejects_invalid_utf8() {
    let message = message_of(&[(58, b"caf\xE9".as_slice())]);
    assert_eq!(message.get_str(58), Err(InvalidValue { tag: 58 }));
}

#[test]
fn get_int_parses_digits() {
    let message = message_of(&[(38, "200")]);
    assert_eq!(message.get_int(38), Ok(Some(200)));
}

#[test]
fn get_int_parses_a_negative_value() {
    let message = message_of(&[(38, "-5")]);
    assert_eq!(message.get_int(38), Ok(Some(-5)));
}

#[test]
fn get_int_absent_tag() {
    let message = message_of(&[(35, "0")]);
    assert_eq!(message.get_int(38), Ok(None));
}

#[test]
fn get_int_rejects_garbage() {
    let message = message_of(&[(38, "12x3")]);
    assert_eq!(message.get_int(38), Err(InvalidValue { tag: 38 }));
}

#[test]
fn get_int_rejects_an_empty_value() {
    let message = message_of(&[(38, "")]);
    assert_eq!(message.get_int(38), Err(InvalidValue { tag: 38 }));
}

#[test]
fn get_int_rejects_invalid_utf8() {
    let message = message_of(&[(38, b"\xE9".as_slice())]);
    assert_eq!(message.get_int(38), Err(InvalidValue { tag: 38 }));
}

// Beyond the original suite.

#[test]
fn get_int_follows_integer_parsing_rules() {
    let message = message_of(&[
        (1, "+7"),
        (2, "-0"),
        (3, "9223372036854775807"),
        (4, "-9223372036854775808"),
        (5, "9223372036854775808"),
        (6, "-"),
        (7, "+"),
        (8, " 1"),
        (9, "007"),
    ]);
    assert_eq!(message.get_int(1), Ok(Some(7)));
    assert_eq!(message.get_int(2), Ok(Some(0)));
    assert_eq!(message.get_int(3), Ok(Some(i64::MAX)));
    assert_eq!(message.get_int(4), Ok(Some(i64::MIN)));
    assert_eq!(message.get_int(5), Err(InvalidValue { tag: 5 }));
    assert_eq!(message.get_int(6), Err(InvalidValue { tag: 6 }));
    assert_eq!(message.get_int(7), Err(InvalidValue { tag: 7 }));
    assert_eq!(message.get_int(8), Err(InvalidValue { tag: 8 }));
    assert_eq!(message.get_int(9), Ok(Some(7)));
}

#[test]
fn parse_i64_agrees_with_std() {
    for text in ["0", "-0", "+0", "12", "-12", "+12", "", "-", "+", "1-", "--1", "+-1", "x",
        "9223372036854775807", "9223372036854775808", "-9223372036854775808",
        "-9223372036854775809", "00000000000000000000001"]
    {
        assert_eq!(parse_i64(text.as_bytes()), text.parse::<i64>().ok(), "{text:?}");
    }
}

#[test]
fn get_str_returns_first_occurrence_even_when_a_later_one_is_invalid() {
    let message = message_of(&[(58, b"ok".as_slice()), (58, b"\xFF".as_slice())]);
    assert_eq!(message.get_str(58), Ok(Some("ok")));
}

#[test]
fn get_str_decodes_multibyte_text() {
    let message = message_of(&[(58, "café ✓")]);
    assert_eq!(message.get_str(58), Ok(Some("café ✓")));
}

#[test]
fn entries_list_every_field_in_order() {
    let message = message_of(&[(35, "0"), (MALFORMED_TAG, "junk"), (58, "a"), (58, "b")]);
    let entries: Vec<(u32, &[u8])> = message.entries();
    assert_eq!(
        entries,
        vec![
            (35, b"0".as_slice()),
            (MALFORMED_TAG, b"junk".as_slice()),
            (58, b"a".as_slice()),
            (58, b"b".as_slice()),
        ]
    );
    assert_eq!(message.raw_fields().len(), 4);
    assert_eq!(message.bytes().len(), "35=0\x010=junk\x0158=a\x0158=b\x01".len());
}

#[test]
fn cloned_message_reads_the_same() {
    let message = message_of(&[(35, "0"), (58, "x")]);
    let copy = message.clone();
    assert_eq!(copy.get(58), Some(b"x".as_slice()));
    assert_eq!(copy.entries(), message.entries());
}

#[test]
fn invalid_value_describes_its_field() {
    assert_eq!(InvalidValue { tag: 38 }.to_string(), "invalid value in field 38");
    assert_eq!(InvalidValue { tag: 0 }.to_string(), "invalid value in field 0");
    assert_eq!(
        InvalidValue { tag: u32::MAX }.to_string(),
        "invalid value in field 4294967295"
    );
}
