//! A frame scanner that also decodes each frame's standard header.
//!
//! Framing is exactly that of [`crate::framing::Scanner`]; on top of it,
//! the session-relevant header fields are read from the frame's fields as
//! the standard tokeniser indexes them, the first occurrence of each.
use vstd::prelude::*;
use vstd::slice::slice_subrange;
use crate::bytes_spec::{all_digits, decimal_u64, decimal_value, digits_only};
use crate::framing::{
    BeginString as FramingBeginString, BeginStringView, GarbledReason as FramingReason, Outcome,
    OutcomeView, Scanner, spec_scan,
};
use crate::framing::starts_with_begin;
use crate::framing_laws::{lemma_frame_rescans_as_itself, lemma_frame_shape, lemma_garbled_skip_in_range};
use crate::length_tags;
use crate::message::{RawField, first_with_tag, fields_in_bounds, lemma_first_with_tag};
use crate::tokenizer::{Tokenizer, lemma_fields_tile, spec_tokenize_fields};

verus! {

// ---------------------------------------------------------------------------
// The model
// ---------------------------------------------------------------------------

/// The value of the first field with `tag` in `frame`, as the standard
/// tokeniser indexes it. The index addresses frames of up to `u32::MAX`
/// bytes (and shorter than `usize::MAX`); in a longer frame no field is
/// read.
pub open spec fn header_value(frame: Seq<u8>, tag: u32) -> Option<Seq<u8>> {
    if frame.len() > u32::MAX || frame.len() >= usize::MAX {
        None
    } else {
        let index = spec_tokenize_fields(length_tags::standard(), frame);
        match first_with_tag(index, tag, 0) {
            Some(i) => Some(
                frame.subrange(index[i].value_start as int, index[i].value_end as int),
            ),
            None => None,
        }
    }
}

/// `MsgSeqNum(34)`: digits whose value fits in a `u64`.
pub open spec fn seq_num_of(value: Option<Seq<u8>>) -> Option<u64> {
    match value {
        Some(v) => if v.len() > 0 && all_digits(v) && decimal_value(v) <= u64::MAX {
            Some(decimal_value(v) as u64)
        } else {
            None
        },
        None => None,
    }
}

/// `PossDupFlag(43)`: `Y` or `N`.
pub open spec fn poss_dup_of(value: Option<Seq<u8>>) -> Option<bool> {
    match value {
        Some(v) => if v == seq![0x59u8] {
            Some(true)
        } else if v == seq![0x4eu8] {
            Some(false)
        } else {
            None
        },
        None => None,
    }
}

/// PossDupFlag(43) is a FIX Boolean: a decoded header reports a possible
/// duplicate exactly when the frame's first tag 43 reads `Y`, and reports
/// none exactly when it reads `N`.
pub proof fn lemma_poss_dup_is_fix_boolean(
    frame: Seq<u8>,
    begin_string: BeginStringView,
    body_length: nat,
    msg_type: Seq<u8>,
)
    ensures
        header_of(frame, begin_string, body_length, msg_type).poss_dup == Some(true) <==> header_value(
            frame,
            43,
        ) == Some(seq![0x59u8]),
        header_of(frame, begin_string, body_length, msg_type).poss_dup == Some(false) <==> header_value(
            frame,
            43,
        ) == Some(seq![0x4eu8]),
{
    let v = header_value(frame, 43);
    if v is Some {
        assert(seq![0x59u8] != seq![0x4eu8]) by {
            assert(seq![0x59u8][0] != seq![0x4eu8][0]);
        }
    }
}

/// A standard header as the model sees it.
pub struct HeaderView {
    pub begin_string: BeginStringView,
    pub body_length: nat,
    pub msg_type: Seq<u8>,
    pub msg_seq_num: Option<u64>,
    pub sender_comp_id: Option<Seq<u8>>,
    pub target_comp_id: Option<Seq<u8>>,
    pub poss_dup: Option<bool>,
    pub sending_time: Option<Seq<u8>>,
    pub orig_sending_time: Option<Seq<u8>>,
    pub appl_ver_id: Option<Seq<u8>>,
}

/// The header of a frame whose preamble is `begin_string`, `body_length`
/// and `msg_type`.
pub open spec fn header_of(
    frame: Seq<u8>,
    begin_string: BeginStringView,
    body_length: nat,
    msg_type: Seq<u8>,
) -> HeaderView {
    HeaderView {
        begin_string,
        body_length,
        msg_type,
        msg_seq_num: seq_num_of(header_value(frame, 34)),
        sender_comp_id: header_value(frame, 49),
        target_comp_id: header_value(frame, 56),
        poss_dup: poss_dup_of(header_value(frame, 43)),
        sending_time: header_value(frame, 52),
        orig_sending_time: header_value(frame, 122),
        appl_ver_id: if begin_string is Fixt11 {
            header_value(frame, 1128)
        } else {
            None
        },
    }
}

/// A scan outcome as the model sees it.
pub enum ScanOutcomeView {
    Frame { bytes: Seq<u8>, header: HeaderView },
    Incomplete,
    Garbled { reason: FramingReason, skipped: nat },
}

/// What scanning `buf` with frame cap `max` finds: the framing scanner's
/// outcome, with the frame's header decoded.
pub open spec fn spec_header_scan(max: int, buf: Seq<u8>) -> ScanOutcomeView {
    match spec_scan(max, buf) {
        OutcomeView::Frame(f) => ScanOutcomeView::Frame {
            bytes: f.bytes,
            header: header_of(f.bytes, f.begin_string, f.body_length, f.msg_type),
        },
        OutcomeView::Incomplete => ScanOutcomeView::Incomplete,
        OutcomeView::Garbled { reason, skipped } => ScanOutcomeView::Garbled { reason, skipped },
    }
}

/// What every header scan keeps: a frame is a prefix of the buffer that
/// starts with `8=FIX`, ends on SOH, is longer than its BodyLength and no
/// longer than the cap, and scanning its own bytes yields it again, header
/// and all; a garble skips at least one byte and at most the whole buffer.
pub proof fn lemma_header_scan_shape(max: int, buf: Seq<u8>)
    requires
        buf.len() <= usize::MAX,
    ensures
        spec_header_scan(max, buf) matches ScanOutcomeView::Frame { bytes, header } ==> {
            &&& 0 < bytes.len() <= buf.len()
            &&& bytes == buf.take(bytes.len() as int)
            &&& starts_with_begin(bytes)
            &&& bytes.last() == crate::bytes_spec::SOH
            &&& header.body_length < bytes.len()
            &&& bytes.len() <= max
            &&& spec_header_scan(max, bytes) == spec_header_scan(max, buf)
        },
        spec_header_scan(max, buf) matches ScanOutcomeView::Garbled { skipped, .. } ==> 1 <= skipped
            <= buf.len(),
{
    lemma_frame_shape(max, buf);
    lemma_garbled_skip_in_range(max, buf);
    if spec_scan(max, buf) is Frame {
        let bytes = spec_scan(max, buf)->Frame_0.bytes;
        assert(bytes.take(bytes.len() as int) =~= bytes);
        lemma_frame_rescans_as_itself(max, buf, bytes);
    }
}

// ---------------------------------------------------------------------------
// The types
// ---------------------------------------------------------------------------

/// Splits a byte buffer into frames, decoding each frame's standard header.
pub struct FrameScanner {
    max_frame_size: usize,
}

/// What a scan finds at the front of a buffer.
pub enum ScanOutcome<'a> {
    /// A well-framed message, checksum verified.
    Frame(Frame<'a>),
    /// The bytes don't represent a complete message.
    Incomplete,
    /// The message is garbled.
    Garbled {
        /// The reason for the supplied bytes being garbled.
        reason: GarbledReason,
        /// Number of bytes to skip.
        ///
        /// Always at least 1: the caller advances by this many bytes, so a
        /// garbled frame never stalls the stream.
        skipped: usize,
    },
}

/// A frame and its decoded standard header.
pub struct Frame<'a> {
    /// The full frame: 8= through the SOH after CheckSum.
    pub bytes: &'a [u8],
    /// The session-relevant fields in the header.
    pub header: StandardHeader<'a>,
}

/// Why bytes cannot be framed.
pub enum GarbledReason {
    /// It does not start with `8=FIX`.
    MissingBeginString,
    /// `8=FIX` present, but no SOH within the BeginString length cap.
    MalformedBeginString,
    /// The second tag is not `9=`.
    MissingBodyLength,
    /// BodyLength is empty, contains a non-digit, or exceeds the digit cap.
    MalformedBodyLength,
    /// The bytes at the BodyLength-implied offset are not `10=`.
    BodyLengthMismatch,
    /// The third tag is not `35=`.
    MissingMsgType,
    /// CheckSum is present but its value is not exactly three digits.
    MalformedChecksum,
    /// The calculated checksum does not match the value of CheckSum.
    ChecksumMismatch,
    /// The BodyLength-implied frame length exceeds the scanner's maximum.
    FrameTooLarge,
}

/// The session-relevant subset of a message's header.
///
/// Produced only as part of a [`Frame`], so its existence guarantees the
/// message was well-framed and checksum-verified, never garbled. It makes
/// no validity claims beyond that. Fields required for framing are always
/// present, whilst fields the session layer needs are optional. The values
/// of these fields are checked by the validation and session layers.
pub struct StandardHeader<'a> {
    /// `BeginString(8)`
    pub begin_string: BeginString<'a>,
    /// `BodyLength(9)`
    pub body_length: usize,
    /// `MsgType(35)`
    pub msg_type: &'a [u8],
    /// `MsgSeqNum(34)`: `None` when absent or unparseable; the session layer
    /// treats both the same way (gap filling is impossible, so logout is
    /// initiated).
    pub msg_seq_num: Option<u64>,
    /// `SenderCompID(49)`
    pub sender_comp_id: Option<&'a [u8]>,
    /// `TargetCompID(56)`
    pub target_comp_id: Option<&'a [u8]>,
    /// `PossDupFlag(43)`
    pub poss_dup: Option<bool>,
    /// `SendingTime(52)` as raw bytes.
    pub sending_time: Option<&'a [u8]>,
    /// `OrigSendingTime(122)` as raw bytes.
    pub orig_sending_time: Option<&'a [u8]>,
    /// `ApplVerID(1128)`, only extracted on FIXT sessions.
    pub appl_ver_id: Option<&'a [u8]>,
}

/// The value of `BeginString(8)`, with recognised protocol versions decoded.
pub enum BeginString<'a> {
    Fix40,
    Fix41,
    Fix42,
    Fix43,
    Fix44,
    Fixt11,
    Other(&'a [u8]),
}

impl View for GarbledReason {
    type V = FramingReason;

    open spec fn view(&self) -> FramingReason {
        match self {
            GarbledReason::MissingBeginString => FramingReason::MissingBeginString,
            GarbledReason::MalformedBeginString => FramingReason::MalformedBeginString,
            GarbledReason::MissingBodyLength => FramingReason::MissingBodyLength,
            GarbledReason::MalformedBodyLength => FramingReason::MalformedBodyLength,
            GarbledReason::BodyLengthMismatch => FramingReason::BodyLengthMismatch,
            GarbledReason::MissingMsgType => FramingReason::MissingMsgType,
            GarbledReason::MalformedChecksum => FramingReason::MalformedChecksum,
            GarbledReason::ChecksumMismatch => FramingReason::ChecksumMismatch,
            GarbledReason::FrameTooLarge => FramingReason::FrameTooLarge,
        }
    }
}

impl<'a> View for BeginString<'a> {
    type V = BeginStringView;

    open spec fn view(&self) -> BeginStringView {
        match self {
            BeginString::Fix40 => BeginStringView::Fix40,
            BeginString::Fix41 => BeginStringView::Fix41,
            BeginString::Fix42 => BeginStringView::Fix42,
            BeginString::Fix43 => BeginStringView::Fix43,
            BeginString::Fix44 => BeginStringView::Fix44,
            BeginString::Fixt11 => BeginStringView::Fixt11,
            BeginString::Other(v) => BeginStringView::Other(v@),
        }
    }
}

/// An optional byte value as the model sees it.
pub open spec fn opt_view(v: Option<&[u8]>) -> Option<Seq<u8>> {
    match v {
        Some(s) => Some(s@),
        None => None,
    }
}

impl<'a> View for StandardHeader<'a> {
    type V = HeaderView;

    open spec fn view(&self) -> HeaderView {
        HeaderView {
            begin_string: self.begin_string@,
            body_length: self.body_length as nat,
            msg_type: self.msg_type@,
            msg_seq_num: self.msg_seq_num,
            sender_comp_id: opt_view(self.sender_comp_id),
            target_comp_id: opt_view(self.target_comp_id),
            poss_dup: self.poss_dup,
            sending_time: opt_view(self.sending_time),
            orig_sending_time: opt_view(self.orig_sending_time),
            appl_ver_id: opt_view(self.appl_ver_id),
        }
    }
}

impl<'a> View for ScanOutcome<'a> {
    type V = ScanOutcomeView;

    open spec fn view(&self) -> ScanOutcomeView {
        match self {
            ScanOutcome::Frame(f) => ScanOutcomeView::Frame { bytes: f.bytes@, header: f.header@ },
            ScanOutcome::Incomplete => ScanOutcomeView::Incomplete,
            ScanOutcome::Garbled { reason, skipped } => ScanOutcomeView::Garbled {
                reason: reason@,
                skipped: *skipped as nat,
            },
        }
    }
}

// ---------------------------------------------------------------------------
// Scanning
// ---------------------------------------------------------------------------

impl FrameScanner {
    /// The largest frame this scanner accepts.
    pub closed spec fn max_frame_size(&self) -> usize {
        self.max_frame_size
    }

    /// A scanner that reports frames longer than `max_frame_size` bytes as
    /// [`GarbledReason::FrameTooLarge`].
    pub fn new(max_frame_size: usize) -> (scanner: Self)
        ensures
            scanner.max_frame_size() == max_frame_size,
    {
        Self { max_frame_size }
    }

    /// Scans one frame from the start of `buf`, as
    /// [`crate::framing::Scanner::scan`] does, and decodes its header.
    pub fn scan<'a>(&self, buf: &'a [u8]) -> (out: ScanOutcome<'a>)
        ensures
            out@ == spec_header_scan(self.max_frame_size() as int, buf@),
    {
        let scanner = Scanner::new(self.max_frame_size);
        let _ = buf.len();
        match scanner.scan(buf) {
            Outcome::Frame(frame) => {
                proof {
                    lemma_frame_shape(self.max_frame_size as int, buf@);
                }
                let header = decode_header(
                    frame.bytes,
                    frame.begin_string,
                    frame.body_length,
                    frame.msg_type,
                );
                ScanOutcome::Frame(Frame { bytes: frame.bytes, header })
            },
            Outcome::Incomplete => ScanOutcome::Incomplete,
            Outcome::Garbled { reason, skipped } => ScanOutcome::Garbled {
                reason: reason_of(reason),
                skipped,
            },
        }
    }
}

impl Default for FrameScanner {
    fn default() -> (scanner: Self)
        ensures
            scanner.max_frame_size() == 1048576,
    {
        Self { max_frame_size: 1048576 }
    }
}

fn reason_of(reason: FramingReason) -> (r: GarbledReason)
    ensures
        r@ == reason,
{
    match reason {
        FramingReason::MissingBeginString => GarbledReason::MissingBeginString,
        FramingReason::MalformedBeginString => GarbledReason::MalformedBeginString,
        FramingReason::MissingBodyLength => GarbledReason::MissingBodyLength,
        FramingReason::MalformedBodyLength => GarbledReason::MalformedBodyLength,
        FramingReason::BodyLengthMismatch => GarbledReason::BodyLengthMismatch,
        FramingReason::MissingMsgType => GarbledReason::MissingMsgType,
        FramingReason::MalformedChecksum => GarbledReason::MalformedChecksum,
        FramingReason::ChecksumMismatch => GarbledReason::ChecksumMismatch,
        FramingReason::FrameTooLarge => GarbledReason::FrameTooLarge,
    }
}

fn begin_string_of<'a>(b: FramingBeginString<'a>) -> (r: BeginString<'a>)
    ensures
        r@ == b@,
{
    match b {
        FramingBeginString::Fix40 => BeginString::Fix40,
        FramingBeginString::Fix41 => BeginString::Fix41,
        FramingBeginString::Fix42 => BeginString::Fix42,
        FramingBeginString::Fix43 => BeginString::Fix43,
        FramingBeginString::Fix44 => BeginString::Fix44,
        FramingBeginString::Fixt11 => BeginString::Fixt11,
        FramingBeginString::Other(v) => BeginString::Other(v),
    }
}

/// The value of the first field with `tag` in the index `fields` of `frame`.
fn value_of<'a>(frame: &'a [u8], fields: &Vec<RawField>, tag: u32) -> (r: Option<&'a [u8]>)
    requires
        fields_in_bounds(fields@, frame@.len()),
    ensures
        match first_with_tag(fields@, tag, 0) {
            Some(i) => r matches Some(v) && v@ == frame@.subrange(
                fields@[i].value_start as int,
                fields@[i].value_end as int,
            ),
            None => r is None,
        },
{
    proof {
        lemma_first_with_tag(fields@, tag, 0);
    }
    let mut i: usize = 0;
    while i < fields.len()
        invariant
            i <= fields@.len(),
            fields_in_bounds(fields@, frame@.len()),
            first_with_tag(fields@, tag, 0) == first_with_tag(fields@, tag, i as int),
        decreases fields@.len() - i,
    {
        let field = fields[i];
        if field.tag == tag {
            assert(fields@[i as int] == field);
            return Some(slice_subrange(frame, field.value_start as usize, field.value_end as usize));
        }
        i = i + 1;
    }
    None
}

/// `MsgSeqNum(34)` from its value.
fn seq_num_from(value: Option<&[u8]>) -> (r: Option<u64>)
    ensures
        r == seq_num_of(opt_view(value)),
{
    match value {
        Some(v) => {
            let len = v.len();
            assert(v@.subrange(0, len as int) =~= v@);
            if len == 0 || !digits_only(v, 0, len) {
                return None;
            }
            match decimal_u64(v, 0, len) {
                Some(n) => Some(n),
                None => None,
            }
        },
        None => None,
    }
}

/// `PossDupFlag(43)` from its value.
fn poss_dup_from(value: Option<&[u8]>) -> (r: Option<bool>)
    ensures
        r == poss_dup_of(opt_view(value)),
{
    match value {
        Some(v) => {
            if v.len() == 1 && v[0] == 0x59 {
                assert(v@ =~= seq![0x59u8]);
                Some(true)
            } else if v.len() == 1 && v[0] == 0x4e {
                assert(v@ =~= seq![0x4eu8]);
                Some(false)
            } else {
                assert(v@ != seq![0x59u8] && v@ != seq![0x4eu8]) by {
                    if v@.len() == 1 {
                        assert(v@[0] == v[0]);
                    }
                }
                None
            }
        },
        None => None,
    }
}

/// The header of a scanned frame.
fn decode_header<'a>(
    frame: &'a [u8],
    begin_string: FramingBeginString<'a>,
    body_length: usize,
    msg_type: &'a [u8],
) -> (header: StandardHeader<'a>)
    requires
        frame@.len() > 0,
        frame@.last() == crate::bytes_spec::SOH,
    ensures
        header@ == header_of(frame@, begin_string@, body_length as nat, msg_type@),
{
    let is_fixt = match begin_string {
        FramingBeginString::Fixt11 => true,
        _ => false,
    };
    let begin_string = begin_string_of(begin_string);
    if frame.len() > 0xffff_ffff || frame.len() == usize::MAX {
        return StandardHeader {
            begin_string,
            body_length,
            msg_type,
            msg_seq_num: None,
            sender_comp_id: None,
            target_comp_id: None,
            poss_dup: None,
            sending_time: None,
            orig_sending_time: None,
            appl_ver_id: None,
        };
    }
    let tokenizer = Tokenizer::default();
    let fields = tokenizer.tokenize_fields(frame);
    proof {
        lemma_fields_tile(length_tags::standard(), frame@, 0, None);
    }
    let appl_ver_id = if is_fixt {
        value_of(frame, &fields, 1128)
    } else {
        None
    };
    StandardHeader {
        begin_string,
        body_length,
        msg_type,
        msg_seq_num: seq_num_from(value_of(frame, &fields, 34)),
        sender_comp_id: value_of(frame, &fields, 49),
        target_comp_id: value_of(frame, &fields, 56),
        poss_dup: poss_dup_from(value_of(frame, &fields, 43)),
        sending_time: value_of(frame, &fields, 52),
        orig_sending_time: value_of(frame, &fields, 122),
        appl_ver_id,
    }
}

} // verus!
