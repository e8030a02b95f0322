use refix::framing::find_next_begin_string;
use refix::scanner::{BeginString, FrameScanner, GarbledReason, ScanOutcome};

/// `|`-delimited readable string into SOH-delimited bytes.
fn to_wire(s: &str) -> Vec<u8> {
    s.replace('|', "\x01").into_bytes()
}

/// A complete, correctly-checksummed frame with a correct BodyLength.
fn construct_valid_frame(begin: &str, body: &str) -> Vec<u8> {
    let body = to_wire(body);
    let mut bytes = to_wire(&format!("8={begin}|9={}|", body.len()));
    bytes.extend_from_slice(&body);
    let sum = bytes.iter().fold(0u8, |acc, &b| acc.wrapping_add(b));
    bytes.extend_from_slice(&to_wire(&format!("10={sum:03}|")));
    bytes
}

#[test]
fn a_partial_begin_prefix_is_preserved_whole() {
    assert_eq!(find_next_begin_string(b"8"), 0);
    assert_eq!(find_next_begin_string(b"8="), 0);
    assert_eq!(find_next_begin_string(b"8=FI"), 0);
    // A complete `8=FIX` at offset 0 is not a resync target.
    assert_eq!(find_next_begin_string(b"8=FIX"), 5);
}

#[test]
fn header_scanner_waits_on_partial_input() {
    let scanner = FrameScanner::default();
    assert!(matches!(scanner.scan(b""), ScanOutcome::Incomplete));
    assert!(matches!(scanner.scan(b"8"), ScanOutcome::Incomplete));
    let frame = construct_valid_frame("FIX.4.4", "35=0|34=1|");
    for len in 0..frame.len() {
        assert!(matches!(scanner.scan(&frame[..len]), ScanOutcome::Incomplete), "{len}");
    }
}

#[test]
fn header_scanner_skips_to_the_next_begin_string() {
    let scanner = FrameScanner::new(64);
    for (buf, expected) in [
        (&b"junk"[..], 4),
        (b"xx8=FIX.4.4", 2),
        (b"9", 1),
        (b"garbage8=FI", 7),
        (b"88=FIX", 1),
    ] {
        match scanner.scan(buf) {
            ScanOutcome::Garbled { reason: GarbledReason::MissingBeginString, skipped } => {
                assert_eq!(skipped, expected, "{:?}", String::from_utf8_lossy(buf));
            }
            _ => panic!("expected MissingBeginString for {:?}", String::from_utf8_lossy(buf)),
        }
    }
}

#[test]
fn header_scanner_decodes_the_session_fields() {
    let frame = construct_valid_frame(
        "FIX.4.4",
        "35=A|34=42|49=ME|56=YOU|43=Y|52=20260730-10:00:00|122=20260730-09:59:59|1128=9|",
    );
    let mut buf = frame.clone();
    buf.extend_from_slice(b"8=FIX");
    match FrameScanner::default().scan(&buf) {
        ScanOutcome::Frame(f) => {
            assert_eq!(f.bytes, frame.as_slice());
            assert!(matches!(f.header.begin_string, BeginString::Fix44));
            assert_eq!(f.header.msg_type, b"A");
            assert_eq!(f.header.msg_seq_num, Some(42));
            assert_eq!(f.header.sender_comp_id, Some(b"ME".as_slice()));
            assert_eq!(f.header.target_comp_id, Some(b"YOU".as_slice()));
            assert_eq!(f.header.poss_dup, Some(true));
            assert_eq!(f.header.sending_time, Some(b"20260730-10:00:00".as_slice()));
            assert_eq!(f.header.orig_sending_time, Some(b"20260730-09:59:59".as_slice()));
            // ApplVerID is only read on FIXT sessions.
            assert_eq!(f.header.appl_ver_id, None);
            assert!(f.header.body_length < f.bytes.len());
        }
        _ => panic!("expected a frame"),
    }
}

#[test]
fn header_scanner_reads_appl_ver_id_on_fixt_and_tolerates_bad_values() {
    let frame = construct_valid_frame("FIXT.1.1", "35=0|34=x|43=maybe|1128=9|");
    match FrameScanner::default().scan(&frame) {
        ScanOutcome::Frame(f) => {
            assert!(matches!(f.header.begin_string, BeginString::Fixt11));
            assert_eq!(f.header.msg_seq_num, None);
            assert_eq!(f.header.poss_dup, None);
            assert_eq!(f.header.sender_comp_id, None);
            assert_eq!(f.header.appl_ver_id, Some(b"9".as_slice()));
            // A frame rescans as itself.
            match FrameScanner::default().scan(f.bytes) {
                ScanOutcome::Frame(again) => assert_eq!(again.bytes, f.bytes),
                _ => panic!("frame did not rescan as itself"),
            }
        }
        _ => panic!("expected a frame"),
    }
}

#[test]
fn header_scanner_caps_the_frame_size() {
    let frame = construct_valid_frame("FIX.4.4", "35=0|58=a long enough text field|");
    match FrameScanner::new(20).scan(&frame) {
        ScanOutcome::Garbled { reason: GarbledReason::FrameTooLarge, skipped } => {
            assert!(skipped >= 1 && skipped <= frame.len());
        }
        _ => panic!("expected FrameTooLarge"),
    }
    let mut bad = construct_valid_frame("FIX.4.4", "35=0|");
    let n = bad.len();
    bad[n - 2] = if bad[n - 2] == b'0' { b'1' } else { b'0' };
    match FrameScanner::default().scan(&bad) {
        ScanOutcome::Garbled { reason: GarbledReason::ChecksumMismatch, skipped } => {
            assert_eq!(skipped, bad.len());
        }
        _ => panic!("expected ChecksumMismatch"),
    }
}
