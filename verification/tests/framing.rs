use refix::framing::{
    find_next_begin_string, reason_str, BeginString, Frame, GarbledReason, Outcome, Scanner,
};

/// `|`-delimited readable string into SOH-delimited bytes.
fn to_wire(s: &str) -> Vec<u8> {
    s.replace('|', "\x01").into_bytes()
}

/// FIX checksum: sum of all bytes mod 256, as a zero-padded 3-digit string.
fn calculate_checksum(bytes: &[u8]) -> String {
    let sum = bytes.iter().fold(0u8, |acc, &b| acc.wrapping_add(b));
    format!("{sum:03}")
}

/// A complete, correctly-checksummed frame with a correct BodyLength.
/// `body` is `|`-delimited and includes its trailing `|`, e.g. "35=A|34=1|".
fn construct_valid_frame(begin: &str, body: &str) -> Vec<u8> {
    let body = to_wire(body);
    let mut bytes = to_wire(&format!("8={begin}|9={}|", body.len()));
    bytes.extend_from_slice(&body);
    let cs = calculate_checksum(&bytes);
    bytes.extend_from_slice(&to_wire(&format!("10={cs}|")));
    bytes
}

fn scan(buf: &[u8]) -> Outcome<'_> {
    Scanner::default().scan(buf)
}

fn assert_garbled(out: Outcome, reason: GarbledReason, skipped: usize) {
    match out {
        Outcome::Garbled { reason: r, skipped: s } => {
            assert_eq!(r, reason, "reason");
            assert_eq!(s, skipped, "skipped");
        }
        _ => panic!("expected Garbled({reason:?}), got a different outcome"),
    }
}

fn assert_incomplete(out: Outcome) {
    assert!(matches!(out, Outcome::Incomplete), "expected Incomplete");
}

/// Scans a buffer expected to be a well-formed frame and returns it.
fn frame(buf: &[u8]) -> Frame<'_> {
    match scan(buf) {
        Outcome::Frame(frame) => frame,
        _ => panic!("expected Frame"),
    }
}

// The resync primitive on its own.

#[test]
fn finds_needle_after_offset_zero() {
    assert_eq!(find_next_begin_string(b"XX8=FIX"), 2);
}

#[test]
fn finds_needle_at_offset_one() {
    assert_eq!(find_next_begin_string(b"X8=FIX"), 1);
}

#[test]
fn no_match_skips_whole_buffer() {
    assert_eq!(find_next_begin_string(b"XYZW"), 4);
}

#[test]
fn preserves_longest_partial_tail() {
    // Ends in `8=FI`, a 4-byte partial the next read may complete.
    assert_eq!(find_next_begin_string(b"garbage8=FI"), 7);
}

#[test]
fn preserves_short_partial_tail() {
    assert_eq!(find_next_begin_string(b"xx8="), 2);
}

#[test]
fn skip_is_always_in_range() {
    for buf in [
        &b"x"[..],
        b"9",
        b"=8",
        b"junk",
        b"8=FIXX",
        b"xx8=",
        b"x8=FI",
        b"garbage8=FI",
        b"XX8=FIX",
        b"8=NOTFIX",
    ] {
        let skipped = find_next_begin_string(buf);
        assert!(
            (1..=buf.len()).contains(&skipped),
            "skip of {skipped} out of range 1..={} for {:?}",
            buf.len(),
            String::from_utf8_lossy(buf),
        );
    }
}

// Incomplete.

#[test]
fn empty() {
    assert_incomplete(scan(b""));
}

#[test]
fn lone_8() {
    assert_incomplete(scan(b"8"));
}

#[test]
fn begin_string_without_soh() {
    assert_incomplete(scan(&to_wire("8=FIX.4.4")));
}

#[test]
fn body_not_yet_arrived() {
    // BodyLength claims 100 bytes; only a handful are here.
    assert_incomplete(scan(&to_wire("8=FIX.4.4|9=100|35=A")));
}

// Structural: extent untrustworthy, the skip resyncs.

#[test]
fn missing_begin_string() {
    assert_garbled(scan(&to_wire("junk")), GarbledReason::MissingBeginString, 4);
}

#[test]
fn non_fix_prefix_is_missing_begin_string() {
    // `8=` but not `8=FIX`: not a frame start at all, so resync past it.
    assert_garbled(scan(&to_wire("8=NOTFIX|9=5|")), GarbledReason::MissingBeginString, 13);
}

#[test]
fn malformed_begin_string_overruns_bound() {
    // Starts with `8=FIX` but the BeginString runs past the bound with no SOH.
    let mut buf = b"8=FIX".to_vec();
    buf.extend([b'X'; 18]); // 23 bytes, no SOH within MAX_BEGIN_STRING_LEN
    assert_garbled(scan(&buf), GarbledReason::MalformedBeginString, 23);
}

#[test]
fn missing_body_length() {
    assert_garbled(scan(&to_wire("8=FIX.4.4|35=A|")), GarbledReason::MissingBodyLength, 15);
}

#[test]
fn malformed_body_length_non_digit() {
    assert_garbled(scan(&to_wire("8=FIX.4.4|9=XY|")), GarbledReason::MalformedBodyLength, 15);
}

#[test]
fn malformed_body_length_overruns_cap() {
    // 15 digits, no SOH: exceeds MAX_BODY_LENGTH_DIGITS.
    assert_garbled(
        scan(&to_wire("8=FIX.4.4|9=123456789012345")),
        GarbledReason::MalformedBodyLength,
        27,
    );
}

#[test]
fn max_digit_body_length_does_not_panic() {
    // The largest cap-legal BodyLength: FrameTooLarge on a 64-bit target,
    // malformed on a 32-bit one; either way it must garble.
    let buf = to_wire("8=FIX.4.4|9=9999999999|35=A|");
    assert!(matches!(scan(&buf), Outcome::Garbled { .. }));
}

#[test]
fn frame_too_large_rejected_before_waiting() {
    // frame_len of ~123 exceeds the cap of 50, so it rejects rather than waits.
    let buf = to_wire("8=FIX.4.4|9=100|");
    assert_garbled(Scanner::new(50).scan(&buf), GarbledReason::FrameTooLarge, 16);
}

#[test]
fn body_length_mismatch() {
    // BodyLength says 3, real body is longer, so the jump lands mid-field.
    assert_garbled(
        scan(&to_wire("8=FIX.4.4|9=3|35=A|10=000|")),
        GarbledReason::BodyLengthMismatch,
        26,
    );
}

#[test]
fn resync_lands_on_next_message() {
    // Garbage, then a real message start 6 bytes in.
    let mut buf = to_wire("junk|X");
    buf.extend_from_slice(&construct_valid_frame("FIX.4.4", "35=A|"));
    assert_garbled(scan(&buf), GarbledReason::MissingBeginString, 6);
}

// Post-structural: extent trusted, the skip is the whole frame.

#[test]
fn checksum_mismatch() {
    let mut buf = construct_valid_frame("FIX.4.4", "35=A|34=1|");
    let len = buf.len();
    let last_digit = &mut buf[len - 2]; // 3 digits then trailing SOH
    *last_digit = if *last_digit == b'0' { b'1' } else { b'0' };
    assert_garbled(scan(&buf), GarbledReason::ChecksumMismatch, len);
}

#[test]
fn malformed_checksum_non_digit() {
    let mut buf = construct_valid_frame("FIX.4.4", "35=A|34=1|");
    let len = buf.len();
    buf[len - 2] = b'x'; // non-digit in the checksum value
    assert_garbled(scan(&buf), GarbledReason::MalformedChecksum, len);
}

#[test]
fn missing_msg_type() {
    let buf = construct_valid_frame("FIX.4.4", "34=1|");
    let len = buf.len();
    assert_garbled(scan(&buf), GarbledReason::MissingMsgType, len);
}

#[test]
fn missing_msg_type_on_empty_body() {
    let buf = construct_valid_frame("FIX.4.4", "");
    let len = buf.len();
    assert_garbled(scan(&buf), GarbledReason::MissingMsgType, len);
}

#[test]
fn empty_first_field() {
    // An empty field where MsgType belongs, so `35=` is only the fourth field.
    let buf = construct_valid_frame("FIX.4.4", "|35=A|");
    let len = buf.len();
    assert_garbled(scan(&buf), GarbledReason::MissingMsgType, len);
}

#[test]
fn skip_does_not_resync_into_body() {
    // The body contains `8=FIX` inside a Text field; a checksum failure
    // trusts the frame extent, so it skips the whole frame.
    let mut buf = construct_valid_frame("FIX.4.4", "35=A|58=8=FIX.4.4|");
    let len = buf.len();
    buf[len - 2] = b'x';
    assert_garbled(scan(&buf), GarbledReason::MalformedChecksum, len);
}

// Happy path and preamble.

#[test]
fn valid_frame_scans() {
    let buf = construct_valid_frame("FIX.4.4", "35=A|34=1|49=ME|56=YOU|");
    assert!(matches!(scan(&buf), Outcome::Frame(_)));
}

#[test]
fn msg_type() {
    let buf = construct_valid_frame("FIX.4.4", "35=D|");
    assert_eq!(frame(&buf).msg_type, b"D".as_slice());
}

#[test]
fn begin_string_and_body_length() {
    let buf = construct_valid_frame("FIX.4.4", "35=A|");
    let h = frame(&buf);
    assert_eq!(h.begin_string, BeginString::Fix44);
    assert_eq!(h.body_length, 5); // "35=A" + SOH
}

#[test]
fn unknown_begin_string_is_other() {
    let buf = construct_valid_frame("FIX.5.0", "35=A|");
    assert_eq!(frame(&buf).begin_string, BeginString::Other(b"FIX.5.0"));
}

#[test]
fn fixt_begin_string() {
    let buf = construct_valid_frame("FIXT.1.1", "35=A|");
    assert_eq!(frame(&buf).begin_string, BeginString::Fixt11);
}

#[test]
fn msg_type_read_regardless_of_trailing_fields() {
    let buf = construct_valid_frame("FIX.4.4", "35=A|34=42|49=ME|56=YOU|");
    assert_eq!(frame(&buf).msg_type, b"A".as_slice());
}

// Truncation.

#[test]
fn every_prefix_of_a_valid_frame_is_incomplete() {
    let frames = [
        construct_valid_frame("FIX.4.4", "35=A|"),
        construct_valid_frame("FIX.4.4", "35=D|34=2|49=SENDER|56=TARGET|"),
        construct_valid_frame("FIXT.1.1", "35=A|1128=9|"),
        construct_valid_frame("FIX.4.2", "35=0|"),
    ];
    for full in &frames {
        for len in 0..full.len() {
            assert!(
                matches!(scan(&full[..len]), Outcome::Incomplete),
                "prefix of length {len} (of a {}-byte frame) should be Incomplete",
                full.len(),
            );
        }
    }
}

// Chunking.

/// Drives the scanner over `stream` delivered in `chunk_size`-byte pieces,
/// returning the frame byte-slices produced, in order.
fn drive(stream: &[u8], chunk_size: usize) -> Vec<Vec<u8>> {
    let scanner = Scanner::default();
    let mut frames = Vec::new();
    let mut buf: Vec<u8> = Vec::new();
    for chunk in stream.chunks(chunk_size) {
        buf.extend_from_slice(chunk);
        loop {
            let advance = match scanner.scan(&buf) {
                Outcome::Frame(f) => {
                    frames.push(f.bytes.to_vec());
                    f.bytes.len()
                }
                Outcome::Garbled { skipped, .. } => skipped,
                Outcome::Incomplete => break,
            };
            buf.drain(..advance);
        }
    }
    frames
}

#[test]
fn clean_stream_is_chunk_invariant() {
    let f1 = construct_valid_frame("FIX.4.4", "35=A|34=1|");
    let f2 = construct_valid_frame("FIXT.1.1", "35=D|1128=9|");
    let mut stream = f1.clone();
    stream.extend_from_slice(&f2);

    let whole = drive(&stream, stream.len());
    assert_eq!(whole, vec![f1, f2]);
    for chunk_size in 1..=stream.len() {
        assert_eq!(drive(&stream, chunk_size), whole, "chunk_size = {chunk_size}");
    }
}

#[test]
fn garbage_before_frame_is_chunk_invariant() {
    let f = construct_valid_frame("FIX.4.4", "35=0|");
    let mut stream = b"YY8=Z".to_vec();
    stream.extend_from_slice(&f);

    let whole = drive(&stream, stream.len());
    assert_eq!(whole, vec![f]);
    for chunk_size in 1..=stream.len() {
        assert_eq!(drive(&stream, chunk_size), whole, "chunk_size = {chunk_size}");
    }
}

// More cases.

#[test]
fn module_doc_heartbeats_drive_to_two_frames() {
    let stream = b"8=FIX.4.4\x019=10\x0135=0\x0134=2\x0110=166\x01\
                   8=FIX.4.4\x019=10\x0135=0\x0134=2\x0110=166\x01";
    let scanner = Scanner::default();
    let mut buf = &stream[..];
    let mut seen = Vec::new();
    loop {
        let advance = match scanner.scan(buf) {
            Outcome::Frame(frame) => {
                seen.push(frame.msg_type.to_vec());
                frame.bytes.len()
            }
            Outcome::Garbled { skipped, .. } => skipped,
            Outcome::Incomplete => break,
        };
        buf = &buf[advance..];
    }
    assert_eq!(seen, vec![b"0".to_vec(), b"0".to_vec()]);
}

#[test]
fn every_known_begin_string_decodes() {
    for (begin, expected) in [
        ("FIX.4.0", BeginString::Fix40),
        ("FIX.4.1", BeginString::Fix41),
        ("FIX.4.2", BeginString::Fix42),
        ("FIX.4.3", BeginString::Fix43),
        ("FIX.4.4", BeginString::Fix44),
        ("FIXT.1.1", BeginString::Fixt11),
    ] {
        let buf = construct_valid_frame(begin, "35=0|");
        assert_eq!(frame(&buf).begin_string, expected);
    }
}

#[test]
fn frame_is_a_prefix_ending_on_soh_and_rescans_as_itself() {
    let mut buf = construct_valid_frame("FIX.4.4", "35=0|34=7|");
    let len = buf.len();
    buf.extend_from_slice(b"8=FIX.4");
    let f = frame(&buf);
    assert_eq!(f.bytes, &buf[..len]);
    assert_eq!(*f.bytes.last().unwrap(), 0x01);
    assert!(f.body_length < f.bytes.len());
    assert_eq!(scan(f.bytes), Outcome::Frame(f.clone()));
}

#[test]
fn frame_decision_survives_more_bytes() {
    let buf = construct_valid_frame("FIX.4.2", "35=5|");
    let mut longer = buf.clone();
    longer.extend_from_slice(b"junk after the frame");
    assert_eq!(scan(&buf), scan(&longer));
}

#[test]
fn structural_skip_grows_with_more_bytes() {
    // On its own the buffer keeps its partial tail; more bytes complete it.
    let short = b"xx8=F".to_vec();
    assert_garbled(scan(&short), GarbledReason::MissingBeginString, 2);
    let longer = b"xx8=Fyy".to_vec();
    assert_garbled(scan(&longer), GarbledReason::MissingBeginString, 7);
}

#[test]
fn trailer_without_preceding_soh_is_a_mismatch() {
    // BodyLength points one byte early, into the final field's SOH.
    let buf = to_wire("8=FIX.4.4|9=4|35=A|10=000|");
    assert_garbled(scan(&buf), GarbledReason::BodyLengthMismatch, 26);
}

#[test]
fn empty_body_length_is_malformed() {
    assert_garbled(scan(&to_wire("8=FIX.4.4|9=|35=A|")), GarbledReason::MalformedBodyLength, 18);
}

#[test]
fn missing_trailing_soh_is_malformed_checksum() {
    let mut buf = construct_valid_frame("FIX.4.4", "35=A|");
    let len = buf.len();
    buf[len - 1] = b'0';
    assert_garbled(scan(&buf), GarbledReason::MalformedChecksum, len);
}

#[test]
fn reason_names() {
    assert_eq!(reason_str(GarbledReason::MissingBeginString), "missing_begin_string");
    assert_eq!(reason_str(GarbledReason::MalformedBeginString), "malformed_begin_string");
    assert_eq!(reason_str(GarbledReason::MissingBodyLength), "missing_body_length");
    assert_eq!(reason_str(GarbledReason::MalformedBodyLength), "malformed_body_length");
    assert_eq!(reason_str(GarbledReason::BodyLengthMismatch), "body_length_mismatch");
    assert_eq!(reason_str(GarbledReason::MissingMsgType), "missing_msg_type");
    assert_eq!(reason_str(GarbledReason::MalformedChecksum), "malformed_checksum");
    assert_eq!(reason_str(GarbledReason::ChecksumMismatch), "checksum_mismatch");
    assert_eq!(reason_str(GarbledReason::FrameTooLarge), "frame_too_large");
}
