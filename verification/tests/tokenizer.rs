use bytes::Bytes;
use refix::framing::GarbledReason;
use refix::tokenizer::parse_u32;
use refix::{RawMessage, TokenizeError, Tokenizer, MALFORMED_TAG};

/// `|`-delimited readable string into SOH-delimited bytes.
fn to_wire(s: &str) -> Vec<u8> {
    s.replace('|', "\x01").into_bytes()
}

/// FIX checksum: sum of all bytes mod 256, as a zero-padded 3-digit string.
fn calculate_checksum(bytes: &[u8]) -> String {
    let sum = bytes.iter().fold(0u8, |acc, &b| acc.wrapping_add(b));
    format!("{sum:03}")
}

/// A complete, correctly-checksummed frame with a correct BodyLength.
fn construct_valid_frame(begin: &str, body: &str) -> Vec<u8> {
    let body = to_wire(body);
    let mut bytes = to_wire(&format!("8={begin}|9={}|", body.len()));
    bytes.extend_from_slice(&body);
    let cs = calculate_checksum(&bytes);
    bytes.extend_from_slice(&to_wire(&format!("10={cs}|")));
    bytes
}

/// Tokenises a `|`-delimited body wrapped in a valid FIX.4.4 frame,
/// asserting the invariant every index must satisfy.
fn tokenize_body(body: &str) -> RawMessage {
    let frame = construct_valid_frame("FIX.4.4", body);
    let message = Tokenizer::default().tokenize(Bytes::from(frame)).unwrap();
    assert_tiles(&message);
    message
}

fn entries_of(message: &RawMessage) -> Vec<(u32, String)> {
    message
        .entries()
        .into_iter()
        .map(|(tag, value)| (tag, String::from_utf8_lossy(value).into_owned()))
        .collect()
}

/// Every field of the frame, in wire order.
fn assert_entries(message: &RawMessage, expected: &[(u32, &str)]) {
    let expected: Vec<(u32, String)> = expected
        .iter()
        .map(|&(tag, value)| (tag, value.to_owned()))
        .collect();
    assert_eq!(entries_of(message), expected);
}

/// The fields between the preamble (8, 9) and the trailer (10).
fn assert_body_entries(message: &RawMessage, expected: &[(u32, &str)]) {
    let entries = entries_of(message);
    let tags: Vec<u32> = entries.iter().map(|&(tag, _)| tag).collect();
    assert_eq!(tags[..2], [8, 9], "frame must open with BeginString, BodyLength");
    assert_eq!(*tags.last().unwrap(), 10, "frame must close with CheckSum");

    let body: Vec<(u32, &str)> = entries[2..entries.len() - 1]
        .iter()
        .map(|(tag, value)| (*tag, value.as_str()))
        .collect();
    assert_eq!(body, expected);
}

/// The index tiles the frame: each field starts one byte past the
/// previous field's value, and the last value's SOH ends the frame.
fn assert_tiles(message: &RawMessage) {
    let mut expected_tag_start = 0;
    for (i, &field) in message.raw_fields().iter().enumerate() {
        assert!(
            field.value_start >= expected_tag_start,
            "slot {i} starts before the previous field ended",
        );
        assert!(field.value_end >= field.value_start, "slot {i} has an inverted value range");
        expected_tag_start = field.value_end + 1;
    }
    assert_eq!(
        expected_tag_start as usize,
        message.bytes().len(),
        "index stops short of the frame end",
    );
}

// Well-formed messages.

#[test]
fn valid_message() {
    let frame = to_wire("8=FIX.4.4|9=41|35=0|49=A|56=B|34=1|52=20260730-10:00:00|10=123|");
    let message = Tokenizer::default().tokenize(Bytes::from(frame)).unwrap();
    assert_tiles(&message);

    let expected_fields = [
        (8, "FIX.4.4"),
        (9, "41"),
        (35, "0"),
        (49, "A"),
        (56, "B"),
        (34, "1"),
        (52, "20260730-10:00:00"),
        (10, "123"),
    ];

    assert_entries(&message, &expected_fields);
}

#[test]
fn empty_value() {
    let message = tokenize_body("35=0|58=|");
    assert_body_entries(&message, &[(35, "0"), (58, "")]);
}

#[test]
fn value_containing_equals() {
    let message = tokenize_body("35=0|58=px=1.23|");
    assert_body_entries(&message, &[(35, "0"), (58, "px=1.23")]);
}

#[test]
fn duplicate_tags_all_indexed() {
    let message = tokenize_body("35=0|58=first|58=second|");
    assert_body_entries(&message, &[(35, "0"), (58, "first"), (58, "second")]);
}

#[test]
fn preamble_and_trailer_are_ordinary_fields() {
    let message = tokenize_body("35=0|");
    assert_eq!(message.get(8), Some(b"FIX.4.4".as_slice()));
    assert_eq!(message.get(9), Some(b"5".as_slice()));
    assert_eq!(message.get(35), Some(b"0".as_slice()));
    assert!(message.get(10).is_some());
}

// Frame-level errors.

#[test]
fn truncated_frame_is_incomplete() {
    let mut bytes = construct_valid_frame("FIX.4.4", "35=0|");
    bytes.pop();

    let error = Tokenizer::default().tokenize(Bytes::from(bytes)).unwrap_err();
    assert_eq!(error, TokenizeError::Incomplete);
}

#[test]
fn absurd_body_length_is_too_large_to_index() {
    let bytes = to_wire("8=FIX.4.4|9=4294967295|35=0|");

    let error = Tokenizer::default().tokenize(Bytes::from(bytes)).unwrap_err();
    assert_eq!(error, TokenizeError::TooLargeToIndex);
}

#[test]
fn two_messages_are_trailing_bytes() {
    let mut bytes = construct_valid_frame("FIX.4.4", "35=0|");
    let frame_len = bytes.len();
    bytes.extend_from_slice(&construct_valid_frame("FIX.4.4", "35=0|"));

    let error = Tokenizer::default().tokenize(Bytes::from(bytes)).unwrap_err();
    assert_eq!(error, TokenizeError::TrailingBytes { frame_len });
}

#[test]
fn leading_junk_is_garbled() {
    let mut bytes = b"xx".to_vec();
    bytes.extend_from_slice(&construct_valid_frame("FIX.4.4", "35=0|"));

    let error = Tokenizer::default().tokenize(Bytes::from(bytes)).unwrap_err();
    assert_eq!(error, TokenizeError::Garbled(GarbledReason::MissingBeginString));
}

#[test]
fn bad_checksum_is_garbled() {
    let mut bytes = construct_valid_frame("FIX.4.4", "35=0|");
    let n = bytes.len();
    // Replace the last checksum digit with a different one.
    bytes[n - 2] = if bytes[n - 2] == b'0' { b'1' } else { b'0' };

    let error = Tokenizer::default().tokenize(Bytes::from(bytes)).unwrap_err();
    assert_eq!(error, TokenizeError::Garbled(GarbledReason::ChecksumMismatch));
}

// The MALFORMED_TAG sentinel.

#[test]
fn run_without_equals() {
    let message = tokenize_body("35=0|junk|58=ok|");
    assert_body_entries(&message, &[(35, "0"), (MALFORMED_TAG, "junk"), (58, "ok")]);
}

#[test]
fn fields_after_a_fault_remain_readable() {
    let message = tokenize_body("35=0|junk|58=ok|");
    assert_eq!(message.get(58), Some(b"ok".as_slice()));
}

#[test]
fn non_numeric_tag() {
    let message = tokenize_body("35=0|abc=x|");
    assert_body_entries(&message, &[(35, "0"), (MALFORMED_TAG, "x")]);
}

#[test]
fn empty_tag() {
    let message = tokenize_body("35=0|=x|");
    assert_body_entries(&message, &[(35, "0"), (MALFORMED_TAG, "x")]);
}

#[test]
fn literal_tag_zero_is_a_sentinel() {
    let message = tokenize_body("35=0|0=x|");
    assert_body_entries(&message, &[(35, "0"), (MALFORMED_TAG, "x")]);
}

#[test]
fn tag_overflowing_u32() {
    let message = tokenize_body("35=0|4294967296=x|");
    assert_body_entries(&message, &[(35, "0"), (MALFORMED_TAG, "x")]);
}

#[test]
fn consecutive_runs() {
    let message = tokenize_body("35=0|junk|more|58=ok|");
    assert_body_entries(
        &message,
        &[(35, "0"), (MALFORMED_TAG, "junk"), (MALFORMED_TAG, "more"), (58, "ok")],
    );
}

// Length-delimited data fields, whose values may contain SOH.

#[test]
fn value_with_embedded_soh() {
    let message = tokenize_body("35=0|95=3|96=a|b|58=ok|");
    assert_body_entries(&message, &[(35, "0"), (95, "3"), (96, "a\x01b"), (58, "ok")]);
}

#[test]
fn value_with_several_sohs() {
    let message = tokenize_body("35=0|95=5|96=a|b|c|58=ok|");
    assert_body_entries(&message, &[(35, "0"), (95, "5"), (96, "a\x01b\x01c"), (58, "ok")]);
}

#[test]
fn zero_length_value() {
    let message = tokenize_body("35=0|95=0|96=|58=ok|");
    assert_body_entries(&message, &[(35, "0"), (95, "0"), (96, ""), (58, "ok")]);
}

#[test]
fn data_value_last_in_body() {
    let message = tokenize_body("35=0|95=3|96=a|b|");
    assert_body_entries(&message, &[(35, "0"), (95, "3"), (96, "a\x01b")]);
}

#[test]
fn overrunning_length_is_distrusted() {
    let message = tokenize_body("35=0|95=4294967295|96=ab|58=ok|");
    assert_body_entries(&message, &[(35, "0"), (95, "4294967295"), (96, "ab"), (58, "ok")]);
}

#[test]
fn non_numeric_length_falls_back_to_scanning() {
    let message = tokenize_body("35=0|95=abc|96=x|y|58=ok|");
    assert_body_entries(
        &message,
        &[(35, "0"), (95, "abc"), (96, "x"), (MALFORMED_TAG, "y"), (58, "ok")],
    );
}

#[test]
fn short_length_surfaces_junk_after_the_data() {
    let message = tokenize_body("35=0|95=1|96=a|b|58=ok|");
    assert_body_entries(
        &message,
        &[(35, "0"), (95, "1"), (96, "a"), (MALFORMED_TAG, "b"), (58, "ok")],
    );
}

#[test]
fn dialect_extra_delimits_data() {
    let frame = construct_valid_frame("FIX.4.4", "35=0|5001=3|5002=a|b|58=ok|");
    let message = Tokenizer::with_extra_length_tags(&[5001]).tokenize(Bytes::from(frame)).unwrap();
    assert_tiles(&message);
    assert_body_entries(&message, &[(35, "0"), (5001, "3"), (5002, "a\x01b"), (58, "ok")]);
}

#[test]
fn standard_set_survives_extras() {
    let frame = construct_valid_frame("FIX.4.4", "35=0|95=3|96=a|b|");
    let message = Tokenizer::with_extra_length_tags(&[5001]).tokenize(Bytes::from(frame)).unwrap();
    assert_tiles(&message);
    assert_body_entries(&message, &[(35, "0"), (95, "3"), (96, "a\x01b")]);
}

#[test]
fn extra_below_the_standard_minimum() {
    let frame = construct_valid_frame("FIX.4.4", "35=0|42=3|58=a|b|11=ok|");
    let message = Tokenizer::with_extra_length_tags(&[42]).tokenize(Bytes::from(frame)).unwrap();
    assert_tiles(&message);
    assert_body_entries(&message, &[(35, "0"), (42, "3"), (58, "a\x01b"), (11, "ok")]);
}

#[test]
fn tag_zero_extra_is_ignored() {
    let tokenizer = Tokenizer::with_extra_length_tags(&[0]);
    assert!(!tokenizer.is_length_tag(MALFORMED_TAG));
}

// The length-tag set.

#[test]
fn standard_length_tags_are_recognised() {
    let tokenizer = Tokenizer::default();
    for tag in [90, 93, 95, 212, 348, 350, 352, 354, 356, 358, 360, 362, 364, 445, 618, 621, 1184,
        1277, 1282, 1397, 1401, 1403]
    {
        assert!(tokenizer.is_length_tag(tag), "tag {tag}");
    }
    for tag in [0, 1, 35, 91, 96, 5001, u32::MAX] {
        assert!(!tokenizer.is_length_tag(tag), "tag {tag}");
    }
}

#[test]
fn extra_length_tags_are_additive_and_deduplicated() {
    let tokenizer = Tokenizer::with_extra_length_tags(&[5001, 95, 5001, 7]);
    for tag in [7, 95, 96 - 1, 5001, 1403] {
        assert!(tokenizer.is_length_tag(tag), "tag {tag}");
    }
    assert!(!tokenizer.is_length_tag(5002));
    assert!(tokenizer.clone().is_length_tag(5001));
}

#[test]
fn parse_u32_edges() {
    assert_eq!(parse_u32(b"0"), Some(0));
    assert_eq!(parse_u32(b"0042"), Some(42));
    assert_eq!(parse_u32(b"4294967295"), Some(u32::MAX));
    assert_eq!(parse_u32(b"4294967296"), None);
    assert_eq!(parse_u32(b""), None);
    assert_eq!(parse_u32(b"12a"), None);
    assert_eq!(parse_u32(b"-1"), None);
}
