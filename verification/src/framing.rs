//! Framing: delimiting one checksum-verified FIX message from a byte stream.
//!
//! A FIX connection is an unbroken stream with no external length prefix, so
//! the only way to know where a message starts is to know where the previous
//! one ended. [`Scanner::scan`] answers that one message at a time, borrowing
//! from the caller's buffer and allocating nothing.
//!
//! Each call returns one of three outcomes, each implying a different action:
//! a [`Frame`] to consume, [`Outcome::Incomplete`] to wait on, or
//! [`Outcome::Garbled`] to skip.
//!
//! Framing reads only the fields whose position the frame structure fixes:
//! `BeginString`, `BodyLength`, `MsgType` and `CheckSum`, each checked
//! positionally at its known offset.
//!
//! What a scan returns is stated by [`spec_scan`], over the buffer's bytes.
use vstd::prelude::*;
use vstd::arithmetic::div_mod::lemma_add_mod_noop;
use vstd::slice::slice_subrange;
pub use crate::bytes_spec::SOH;
use crate::bytes_spec::{
    DIGIT_ZERO, all_digits, byte_sum, decimal_usize, decimal_value, digits_only, find_byte,
    is_digit, lemma_decimal_step, lemma_find_byte, position_of,
};

verus! {

/// Longest BeginString field we'll frame: `8=` through the byte before its SOH.
pub const MAX_BEGIN_STRING_LEN: usize = 16;

/// Longest BodyLength value we'll frame, in digits.
pub const MAX_BODY_LENGTH_DIGITS: usize = 10;

/// `10=` + three checksum digits + SOH.
pub const CHECKSUM_FIELD_LEN: usize = 7;

/// The frame cap of the default scanner: 1 MiB.
pub const DEFAULT_MAX_FRAME_SIZE: usize = 1048576;

// ASCII bytes the frame structure names.
pub const ASCII_EQUALS: u8 = 0x3d;
pub const ASCII_DOT: u8 = 0x2e;
pub const ASCII_0: u8 = 0x30;
pub const ASCII_1: u8 = 0x31;
pub const ASCII_3: u8 = 0x33;
pub const ASCII_4: u8 = 0x34;
pub const ASCII_5: u8 = 0x35;
pub const ASCII_8: u8 = 0x38;
pub const ASCII_9: u8 = 0x39;
pub const ASCII_F: u8 = 0x46;
pub const ASCII_I: u8 = 0x49;
pub const ASCII_T: u8 = 0x54;
pub const ASCII_X: u8 = 0x58;

// ---------------------------------------------------------------------------
// The model
// ---------------------------------------------------------------------------

/// `8=FIX`: the shortest prefix common to every BeginString. The FIX spec
/// fixes every one to the form `FIX.x.y` or `FIXT.x.y`, so `8=FIX` marks the
/// start of any frame.
pub open spec fn begin_prefix() -> Seq<u8> {
    seq![ASCII_8, ASCII_EQUALS, ASCII_F, ASCII_I, ASCII_X]
}

/// `x` agrees with `8=FIX` on every position both have: either `x` is a
/// prefix of `8=FIX` or `8=FIX` is a prefix of `x`. These are the places a
/// frame may start, or may yet start once more bytes arrive.
pub open spec fn agrees_with_begin(x: Seq<u8>) -> bool {
    forall|j: int| 0 <= j < x.len() && j < 5 ==> x[j] == #[trigger] begin_prefix()[j]
}

/// `x` starts with `8=FIX`.
pub open spec fn starts_with_begin(x: Seq<u8>) -> bool {
    x.len() >= 5 && agrees_with_begin(x)
}

/// `x` is a prefix of `8=FIX` (possibly empty).
pub open spec fn is_begin_prefix(x: Seq<u8>) -> bool {
    x.len() <= 5 && agrees_with_begin(x)
}

/// The first offset at or after `i` from which `buf` agrees with `8=FIX`;
/// the end of `buf`, where nothing is left, always does.
pub open spec fn first_agreeing_from(buf: Seq<u8>, i: int) -> int
    decreases buf.len() - i,
{
    if i >= buf.len() {
        buf.len() as int
    } else if agrees_with_begin(buf.skip(i)) {
        i
    } else {
        first_agreeing_from(buf, i + 1)
    }
}

/// Bytes to skip to resynchronise onto the next frame start: the first
/// offset after 0 at which a `8=FIX` starts, or at which the tail of the
/// buffer is a partial `8=FIX` that more bytes may complete; failing both,
/// the whole buffer.
pub open spec fn resync_skip(buf: Seq<u8>) -> int {
    first_agreeing_from(buf, 1)
}

/// The `FIX.4.<minor>` BeginString value.
pub open spec fn fix4(minor: u8) -> Seq<u8> {
    seq![ASCII_F, ASCII_I, ASCII_X, ASCII_DOT, ASCII_4, ASCII_DOT, minor]
}

/// The `FIXT.1.1` BeginString value.
pub open spec fn fixt11() -> Seq<u8> {
    seq![ASCII_F, ASCII_I, ASCII_X, ASCII_T, ASCII_DOT, ASCII_1, ASCII_DOT, ASCII_1]
}

/// The `10=` tag that opens the trailer.
pub open spec fn checksum_tag() -> Seq<u8> {
    seq![ASCII_1, ASCII_0, ASCII_EQUALS]
}

/// The `35=` tag of MsgType.
pub open spec fn msg_type_tag() -> Seq<u8> {
    seq![ASCII_3, ASCII_5, ASCII_EQUALS]
}

/// The value of `BeginString(8)` as the model sees it.
pub enum BeginStringView {
    Fix40,
    Fix41,
    Fix42,
    Fix43,
    Fix44,
    Fixt11,
    Other(Seq<u8>),
}

/// A frame as the model sees it.
pub struct FrameView {
    pub bytes: Seq<u8>,
    pub begin_string: BeginStringView,
    pub body_length: nat,
    pub msg_type: Seq<u8>,
}

/// A scan outcome as the model sees it.
pub enum OutcomeView {
    Frame(FrameView),
    Incomplete,
    Garbled { reason: GarbledReason, skipped: nat },
}

/// A scan that ended without a frame, as the model sees it.
pub enum HaltView {
    Incomplete,
    Garbled { reason: GarbledReason, skipped: nat },
}

/// A garble whose extent isn't trustworthy: the skip resyncs by searching for
/// the next BeginString.
pub open spec fn structural(reason: GarbledReason, buf: Seq<u8>) -> HaltView {
    HaltView::Garbled { reason, skipped: resync_skip(buf) as nat }
}

/// A garble found once the frame's extent is trusted: the skip is the whole
/// frame.
pub open spec fn post_structural(reason: GarbledReason, frame: Seq<u8>) -> HaltView {
    HaltView::Garbled { reason, skipped: frame.len() }
}

/// The decoded BeginString value.
pub open spec fn begin_string_view(value: Seq<u8>) -> BeginStringView {
    if value == fix4(ASCII_0) {
        BeginStringView::Fix40
    } else if value == fix4(ASCII_1) {
        BeginStringView::Fix41
    } else if value == fix4(0x32) {
        BeginStringView::Fix42
    } else if value == fix4(ASCII_3) {
        BeginStringView::Fix43
    } else if value == fix4(ASCII_4) {
        BeginStringView::Fix44
    } else if value == fixt11() {
        BeginStringView::Fixt11
    } else {
        BeginStringView::Other(value)
    }
}

/// `BeginString(8)`, the first field: its decoded value and the offset just
/// past its SOH. The SOH is searched for within `MAX_BEGIN_STRING_LEN` bytes
/// of the start.
pub open spec fn spec_parse_begin_string(buf: Seq<u8>) -> Result<(BeginStringView, int), HaltView> {
    let search_end = if buf.len() < 17 { buf.len() as int } else { 17 };
    match find_byte(buf.subrange(2, search_end), SOH) {
        Some(rel) => Ok((begin_string_view(buf.subrange(2, rel + 2)), rel + 3)),
        None => if buf.len() <= 16 {
            Err(HaltView::Incomplete)
        } else {
            Err(structural(GarbledReason::MalformedBeginString, buf))
        },
    }
}

/// `BodyLength(9)`, the second field, starting at `start`: its value and the
/// offset just past its SOH (where the region it measures begins). At most
/// `MAX_BODY_LENGTH_DIGITS` digits are read.
pub open spec fn spec_parse_body_length(buf: Seq<u8>, start: int) -> Result<(int, int), HaltView> {
    if buf.len() - start < 2 {
        Err(HaltView::Incomplete)
    } else if buf[start] != ASCII_9 || buf[start + 1] != ASCII_EQUALS {
        Err(structural(GarbledReason::MissingBodyLength, buf))
    } else {
        let ds = start + 2;
        let search_end = if buf.len() - ds < 11 { buf.len() as int } else { ds + 11 };
        match find_byte(buf.subrange(ds, search_end), SOH) {
            None => if buf.len() <= ds + 10 {
                Err(HaltView::Incomplete)
            } else {
                Err(structural(GarbledReason::MalformedBodyLength, buf))
            },
            Some(rel) => {
                let digits = buf.subrange(ds, ds + rel);
                if rel == 0 || !all_digits(digits) || decimal_value(digits) > usize::MAX {
                    Err(structural(GarbledReason::MalformedBodyLength, buf))
                } else {
                    Ok((decimal_value(digits) as int, ds + rel + 1))
                }
            },
        }
    }
}

/// The total frame length implied by BodyLength, bounded by `max` and fully
/// buffered. The length is compared with `max` saturated at `usize::MAX`.
pub open spec fn spec_frame_len(buf: Seq<u8>, body_start: int, body_length: int, max: int) -> Result<int, HaltView> {
    let total = body_start + body_length + CHECKSUM_FIELD_LEN;
    let saturated = if total > usize::MAX { usize::MAX as int } else { total };
    if saturated > max {
        Err(structural(GarbledReason::FrameTooLarge, buf))
    } else if buf.len() < total {
        Err(HaltView::Incomplete)
    } else {
        Ok(total)
    }
}

/// BodyLength's jump landed on the CheckSum field: `10=` preceded by SOH.
pub open spec fn spec_verify_trailer_start(buf: Seq<u8>, checksum_start: int) -> Result<(), HaltView> {
    if buf[checksum_start - 1] != SOH || buf.subrange(checksum_start, checksum_start + 3)
        != checksum_tag() {
        Err(structural(GarbledReason::BodyLengthMismatch, buf))
    } else {
        Ok(())
    }
}

/// The `<CheckSum><SOH>` at `checksum_start`: three digits whose value is the
/// sum of every byte before `10=`, modulo 256.
pub open spec fn spec_verify_checksum(frame: Seq<u8>, checksum_start: int) -> Result<(), HaltView> {
    let digits = frame.subrange(checksum_start + 3, checksum_start + 6);
    if frame[checksum_start + 6] != SOH || !all_digits(digits) {
        Err(post_structural(GarbledReason::MalformedChecksum, frame))
    } else if decimal_value(digits) != byte_sum(frame.take(checksum_start)) % 256 {
        Err(post_structural(GarbledReason::ChecksumMismatch, frame))
    } else {
        Ok(())
    }
}

/// `MsgType(35)`, which must open the region BodyLength measures.
pub open spec fn spec_parse_msg_type(frame: Seq<u8>, body_start: int, body_length: int) -> Result<Seq<u8>, HaltView> {
    let region = frame.subrange(body_start, body_start + body_length);
    if region.len() < 3 || region.take(3) != msg_type_tag() {
        Err(post_structural(GarbledReason::MissingMsgType, frame))
    } else {
        match find_byte(region.skip(3), SOH) {
            None => Err(post_structural(GarbledReason::MissingMsgType, frame)),
            Some(soh) => Ok(region.skip(3).take(soh)),
        }
    }
}

/// One frame from the start of `buf`, or why there is none, given the frame
/// cap `max`.
#[verifier::opaque]
pub open spec fn spec_try_scan(max: int, buf: Seq<u8>) -> Result<FrameView, HaltView> {
    if !starts_with_begin(buf) {
        if is_begin_prefix(buf) {
            Err(HaltView::Incomplete)
        } else {
            Err(structural(GarbledReason::MissingBeginString, buf))
        }
    } else {
        match spec_parse_begin_string(buf) {
            Err(h) => Err(h),
            Ok((begin_string, body_length_start)) => match spec_parse_body_length(
                buf,
                body_length_start,
            ) {
                Err(h) => Err(h),
                Ok((body_length, body_start)) => match spec_frame_len(
                    buf,
                    body_start,
                    body_length,
                    max,
                ) {
                    Err(h) => Err(h),
                    Ok(frame_len) => {
                        let frame = buf.take(frame_len);
                        let checksum_start = body_start + body_length;
                        match spec_verify_trailer_start(buf, checksum_start) {
                            Err(h) => Err(h),
                            Ok(_) => match spec_verify_checksum(frame, checksum_start) {
                                Err(h) => Err(h),
                                Ok(_) => match spec_parse_msg_type(frame, body_start, body_length) {
                                    Err(h) => Err(h),
                                    Ok(msg_type) => Ok(
                                        FrameView {
                                            bytes: frame,
                                            begin_string,
                                            body_length: body_length as nat,
                                            msg_type,
                                        },
                                    ),
                                },
                            },
                        }
                    },
                },
            },
        }
    }
}

/// The outcome of scanning `buf` with frame cap `max`.
pub open spec fn spec_scan(max: int, buf: Seq<u8>) -> OutcomeView {
    match spec_try_scan(max, buf) {
        Ok(frame) => OutcomeView::Frame(frame),
        Err(HaltView::Incomplete) => OutcomeView::Incomplete,
        Err(HaltView::Garbled { reason, skipped }) => OutcomeView::Garbled { reason, skipped },
    }
}

// ---------------------------------------------------------------------------
// The types
// ---------------------------------------------------------------------------

/// A stateless framing scanner: each [`scan`](Scanner::scan) call attempts
/// to delimit one checksum-verified frame from the start of a buffer.
///
/// The [`Default`] scanner caps frames at 1 MiB; use [`Scanner::new`] to
/// choose a different cap.
pub struct Scanner {
    max_frame_size: usize,
}

/// One of three outcomes of a scan.
#[derive(Debug, Clone, PartialEq, Eq)]
pub enum Outcome<'a> {
    /// A well-framed message, checksum verified.
    Frame(Frame<'a>),
    /// The bytes don't represent a complete message.
    Incomplete,
    /// The message is garbled.
    Garbled {
        /// The reason for the supplied bytes being garbled.
        reason: GarbledReason,
        /// Number of bytes to skip. Always at least 1: the caller advances by
        /// this many bytes, so a garbled frame never stalls the stream.
        skipped: usize,
    },
}

/// One well-framed, checksum-verified message.
///
/// Carries the raw frame bytes plus the three preamble fields whose position
/// is guaranteed by the frame structure itself (`8`/`9`/`35`).
#[derive(Debug, Clone, PartialEq, Eq)]
pub struct Frame<'a> {
    /// The full frame: 8= through the SOH after CheckSum.
    pub bytes: &'a [u8],
    /// `BeginString(8)`
    pub begin_string: BeginString<'a>,
    /// `BodyLength(9)`
    pub body_length: usize,
    /// `MsgType(35)`
    pub msg_type: &'a [u8],
}

/// A scan that ended without a frame.
enum Halt {
    Incomplete,
    Garbled { reason: GarbledReason, skipped: usize },
}

/// Why a buffer was rejected.
#[derive(Debug, Clone, Copy, PartialEq, Eq)]
pub enum GarbledReason {
    /// It does not start with `8=FIX` (so it is not a frame start).
    MissingBeginString,
    /// `8=FIX` present, but no SOH within MAX_BEGIN_STRING_LEN.
    MalformedBeginString,
    /// The second tag is not `9=`.
    MissingBodyLength,
    /// BodyLength is empty, contains a non-digit, exceeds the digit cap, or is
    /// too large to represent.
    MalformedBodyLength,
    /// The BodyLength-implied offset is not a `10=` trailer at a field boundary
    /// (i.e. not preceded by SOH, or not `10=`).
    BodyLengthMismatch,
    /// The third field is not `35=` (it must directly follow BodyLength).
    MissingMsgType,
    /// The CheckSum field is not three digits followed by SOH.
    MalformedChecksum,
    /// The calculated checksum does not match the value of CheckSum.
    ChecksumMismatch,
    /// The BodyLength-implied frame length exceeds max_frame_size.
    FrameTooLarge,
}

/// The value of `BeginString(8)`, with recognised protocol versions decoded.
#[derive(Debug, Clone, Copy, PartialEq, Eq)]
pub enum BeginString<'a> {
    Fix40,
    Fix41,
    Fix42,
    Fix43,
    Fix44,
    Fixt11,
    /// An unrecognised BeginString, preserved as raw bytes.
    Other(&'a [u8]),
}

impl<'a> View for BeginString<'a> {
    type V = BeginStringView;

    open spec fn view(&self) -> BeginStringView {
        match *self {
            BeginString::Fix40 => BeginStringView::Fix40,
            BeginString::Fix41 => BeginStringView::Fix41,
            BeginString::Fix42 => BeginStringView::Fix42,
            BeginString::Fix43 => BeginStringView::Fix43,
            BeginString::Fix44 => BeginStringView::Fix44,
            BeginString::Fixt11 => BeginStringView::Fixt11,
            BeginString::Other(value) => BeginStringView::Other(value@),
        }
    }
}

impl<'a> View for Frame<'a> {
    type V = FrameView;

    open spec fn view(&self) -> FrameView {
        FrameView {
            bytes: self.bytes@,
            begin_string: self.begin_string@,
            body_length: self.body_length as nat,
            msg_type: self.msg_type@,
        }
    }
}

impl<'a> View for Outcome<'a> {
    type V = OutcomeView;

    open spec fn view(&self) -> OutcomeView {
        match *self {
            Outcome::Frame(frame) => OutcomeView::Frame(frame@),
            Outcome::Incomplete => OutcomeView::Incomplete,
            Outcome::Garbled { reason, skipped } => OutcomeView::Garbled {
                reason,
                skipped: skipped as nat,
            },
        }
    }
}

impl View for Halt {
    type V = HaltView;

    closed spec fn view(&self) -> HaltView {
        match *self {
            Halt::Incomplete => HaltView::Incomplete,
            Halt::Garbled { reason, skipped } => HaltView::Garbled { reason, skipped: skipped as nat },
        }
    }
}

impl Halt {
    fn into_outcome<'a>(self) -> (out: Outcome<'a>)
        ensures
            match self@ {
                HaltView::Incomplete => out@ == OutcomeView::Incomplete,
                HaltView::Garbled { reason, skipped } => out@ == (OutcomeView::Garbled {
                    reason,
                    skipped,
                }),
            },
    {
        match self {
            Halt::Incomplete => Outcome::Incomplete,
            Halt::Garbled { reason, skipped } => Outcome::Garbled { reason, skipped },
        }
    }
}

// ---------------------------------------------------------------------------
// Scanning
// ---------------------------------------------------------------------------

impl Scanner {
    /// The largest frame, in bytes, this scanner accepts.
    pub closed spec fn max_frame_size(&self) -> usize {
        self.max_frame_size
    }

    /// Creates a scanner that reports frames longer than `max_frame_size`
    /// bytes as [`GarbledReason::FrameTooLarge`].
    pub fn new(max_frame_size: usize) -> (scanner: Self)
        ensures
            scanner.max_frame_size() == max_frame_size,
    {
        Self { max_frame_size }
    }

    /// Scans one frame from the start of `buf`.
    ///
    /// `buf` must begin at a presumed message boundary: the start of the
    /// stream, or the position reached by advancing past a previous outcome.
    /// After [`Outcome::Frame`], advance by `frame.bytes.len()`; after
    /// [`Outcome::Garbled`], advance by `skipped`; on
    /// [`Outcome::Incomplete`], read more bytes and scan again from the
    /// same position.
    pub fn scan<'a>(&self, buf: &'a [u8]) -> (out: Outcome<'a>)
        ensures
            out@ == spec_scan(self.max_frame_size() as int, buf@),
    {
        match self.try_scan(buf) {
            Ok(frame) => Outcome::Frame(frame),
            Err(halt) => halt.into_outcome(),
        }
    }

    fn try_scan<'a>(&self, buf: &'a [u8]) -> (r: Result<Frame<'a>, Halt>)
        ensures
            match r {
                Ok(frame) => spec_try_scan(self.max_frame_size() as int, buf@) == Ok::<
                    FrameView,
                    HaltView,
                >(frame@),
                Err(halt) => spec_try_scan(self.max_frame_size() as int, buf@) == Err::<
                    FrameView,
                    HaltView,
                >(halt@),
            },
    {
        reveal(spec_try_scan);
        let starts = buf.len() >= 5 && agrees_at(buf, 0);
        assert(buf@.skip(0) =~= buf@);
        if !starts {
            // If `buf` is still a prefix of `8=FIX`, more bytes could
            // complete it; otherwise it's garbage to resync past.
            return if buf.len() <= 5 && agrees_at(buf, 0) {
                Err(Halt::Incomplete)
            } else {
                Err(structural_garble(GarbledReason::MissingBeginString, buf))
            };
        }
        let (begin_string, body_length_start) = match parse_begin_string(buf) {
            Ok(parsed) => parsed,
            Err(halt) => return Err(halt),
        };
        let (body_length, body_start) = match parse_body_length(buf, body_length_start) {
            Ok(parsed) => parsed,
            Err(halt) => return Err(halt),
        };
        let frame_len = match validated_frame_len(buf, body_start, body_length, self.max_frame_size) {
            Ok(len) => len,
            Err(halt) => return Err(halt),
        };
        let frame = slice_subrange(buf, 0, frame_len);
        let checksum_start = body_start + body_length;
        match verify_trailer_start(buf, checksum_start) {
            Ok(()) => {},
            Err(halt) => return Err(halt),
        }
        assert(frame@ =~= buf@.take(frame_len as int));
        match verify_checksum(frame, checksum_start) {
            Ok(()) => {},
            Err(halt) => return Err(halt),
        }
        let msg_type = match parse_msg_type(frame, body_start, body_length) {
            Ok(msg_type) => msg_type,
            Err(halt) => return Err(halt),
        };
        Ok(Frame { bytes: frame, begin_string, body_length, msg_type })
    }
}

impl Default for Scanner {
    fn default() -> (scanner: Self)
        ensures
            scanner.max_frame_size() == DEFAULT_MAX_FRAME_SIZE,
    {
        Self { max_frame_size: DEFAULT_MAX_FRAME_SIZE }
    }
}

/// Byte `j` of `8=FIX`.
fn begin_byte(j: usize) -> (b: u8)
    requires
        j < 5,
    ensures
        b == begin_prefix()[j as int],
{
    if j == 0 {
        ASCII_8
    } else if j == 1 {
        ASCII_EQUALS
    } else if j == 2 {
        ASCII_F
    } else if j == 3 {
        ASCII_I
    } else {
        ASCII_X
    }
}

/// Whether `buf[i..]` agrees with `8=FIX` on every position both have.
fn agrees_at(buf: &[u8], i: usize) -> (r: bool)
    requires
        i <= buf@.len(),
    ensures
        r == agrees_with_begin(buf@.skip(i as int)),
{
    let ghost x = buf@.skip(i as int);
    let len = buf.len();
    let n = len - i;
    let m = if n < 5 { n } else { 5 };
    let mut j: usize = 0;
    while j < m
        invariant
            j <= m,
            m <= n,
            m == (if n < 5 { n } else { 5 }),
            i <= len,
            len == buf@.len(),
            n == len - i,
            x == buf@.skip(i as int),
            forall|k: int| 0 <= k < j ==> x[k] == #[trigger] begin_prefix()[k],
        decreases m - j,
    {
        if buf[i + j] != begin_byte(j) {
            assert(x[j as int] != begin_prefix()[j as int]);
            return false;
        }
        j = j + 1;
    }
    true
}

/// Bytes to skip to resynchronise onto the next frame start.
///
/// Returns the offset of the next `8=FIX` after offset 0. If none is present,
/// preserves the longest partial `8=FIX` prefix hanging off the tail.
/// Failing that, skips the whole buffer. A buffer shorter than `8=FIX` that
/// is itself a partial `8=FIX` is preserved whole: the skip is 0.
pub fn find_next_begin_string(buf: &[u8]) -> (skip: usize)
    requires
        buf@.len() > 0,
    ensures
        buf@.len() < 5 && agrees_with_begin(buf@) ==> skip == 0,
        !(buf@.len() < 5 && agrees_with_begin(buf@)) ==> {
            &&& skip == resync_skip(buf@)
            &&& 1 <= skip <= buf@.len()
            &&& agrees_with_begin(buf@.skip(skip as int))
            &&& forall|j: int| 1 <= j < skip ==> !agrees_with_begin(#[trigger] buf@.skip(j))
        },
{
    if buf.len() < 5 && agrees_at(buf, 0) {
        assert(buf@.skip(0) =~= buf@);
        return 0;
    }
    proof {
        if buf@.len() < 5 {
            assert(buf@.skip(0) =~= buf@);
        }
    }
    let mut i: usize = 1;
    while i < buf.len()
        invariant
            1 <= i <= buf@.len(),
            !(buf@.len() < 5 && agrees_with_begin(buf@)),
            first_agreeing_from(buf@, i as int) == resync_skip(buf@),
            forall|j: int| 1 <= j < i ==> !agrees_with_begin(#[trigger] buf@.skip(j)),
        decreases buf@.len() - i,
    {
        if agrees_at(buf, i) {
            return i;
        }
        i = i + 1;
    }
    assert(buf@.skip(i as int).len() == 0);
    i
}

fn structural_garble(reason: GarbledReason, buf: &[u8]) -> (halt: Halt)
    requires
        !is_begin_prefix(buf@),
    ensures
        halt@ == structural(reason, buf@),
{
    Halt::Garbled { reason, skipped: find_next_begin_string(buf) }
}

fn post_structural_garble(reason: GarbledReason, frame: &[u8]) -> (halt: Halt)
    ensures
        halt@ == post_structural(reason, frame@),
{
    Halt::Garbled { reason, skipped: frame.len() }
}

/// Decodes a BeginString value, recognising the known protocol versions.
fn decode_begin_string<'a>(value: &'a [u8]) -> (begin_string: BeginString<'a>)
    ensures
        begin_string@ == begin_string_view(value@),
{
    if value.len() == 7 && value[0] == ASCII_F && value[1] == ASCII_I && value[2] == ASCII_X
        && value[3] == ASCII_DOT && value[4] == ASCII_4 && value[5] == ASCII_DOT {
        let minor = value[6];
        assert(value@ =~= fix4(minor));
        if minor == ASCII_0 {
            BeginString::Fix40
        } else if minor == ASCII_1 {
            BeginString::Fix41
        } else if minor == 0x32 {
            BeginString::Fix42
        } else if minor == ASCII_3 {
            BeginString::Fix43
        } else if minor == ASCII_4 {
            BeginString::Fix44
        } else {
            assert(value@ != fix4(ASCII_0) && value@ != fix4(ASCII_1) && value@ != fix4(0x32)
                && value@ != fix4(ASCII_3) && value@ != fix4(ASCII_4)) by {
                assert(value@[6] == minor);
            }
            BeginString::Other(value)
        }
    } else if value.len() == 8 && value[0] == ASCII_F && value[1] == ASCII_I && value[2] == ASCII_X
        && value[3] == ASCII_T && value[4] == ASCII_DOT && value[5] == ASCII_1 && value[6]
        == ASCII_DOT && value[7] == ASCII_1 {
        assert(value@ =~= fixt11());
        BeginString::Fixt11
    } else {
        assert(value@ != fix4(ASCII_0) && value@ != fix4(ASCII_1) && value@ != fix4(0x32)
            && value@ != fix4(ASCII_3) && value@ != fix4(ASCII_4) && value@ != fixt11()) by {
            if value@.len() == 7 {
                assert(fix4(ASCII_0)[0] == ASCII_F);
            }
        }
        BeginString::Other(value)
    }
}

/// Parses `BeginString(8)`, the first field of a message.
fn parse_begin_string<'a>(buf: &'a [u8]) -> (r: Result<(BeginString<'a>, usize), Halt>)
    requires
        starts_with_begin(buf@),
    ensures
        match r {
            Ok((begin_string, next)) => 6 <= next <= buf@.len() && spec_parse_begin_string(buf@)
                == Ok::<(BeginStringView, int), HaltView>((begin_string@, next as int)),
            Err(halt) => spec_parse_begin_string(buf@) == Err::<(BeginStringView, int), HaltView>(
                halt@,
            ),
        },
{
    let search_end = if buf.len() < MAX_BEGIN_STRING_LEN + 1 {
        buf.len()
    } else {
        MAX_BEGIN_STRING_LEN + 1
    };
    match position_of(buf, 2, search_end, SOH) {
        Some(soh) => {
            proof {
                let w = buf@.subrange(2, search_end as int);
                lemma_find_byte(w, SOH);
                assert(agrees_with_begin(buf@) && begin_prefix()[2] == ASCII_F && begin_prefix()[3]
                    == ASCII_I && begin_prefix()[4] == ASCII_X);
                assert(buf@[2] != SOH && buf@[3] != SOH && buf@[4] != SOH);
                assert(w[0] == buf@[2] && w[1] == buf@[3] && w[2] == buf@[4]);
            }
            let value = slice_subrange(buf, 2, soh);
            // soh + 1 = start of the 9= field
            Ok((decode_begin_string(value), soh + 1))
        },
        None => {
            if buf.len() <= MAX_BEGIN_STRING_LEN {
                Err(Halt::Incomplete)
            } else {
                Err(structural_garble(GarbledReason::MalformedBeginString, buf))
            }
        },
    }
}

/// Parses `BodyLength(9)`, the second field of a message (starting at
/// `start`).
///
/// On success returns `(body_length, body_start)`, where `body_start` is the
/// offset just past the BodyLength SOH. `body_start` and `body_length`
/// describe the region BodyLength measures: from its own terminating SOH up
/// to and including the SOH before `10=`.
fn parse_body_length(buf: &[u8], start: usize) -> (r: Result<(usize, usize), Halt>)
    requires
        starts_with_begin(buf@),
        6 <= start <= buf@.len(),
    ensures
        match r {
            Ok((body_length, body_start)) => start + 3 <= body_start <= buf@.len()
                && spec_parse_body_length(buf@, start as int) == Ok::<(int, int), HaltView>(
                (body_length as int, body_start as int),
            ),
            Err(halt) => spec_parse_body_length(buf@, start as int) == Err::<(int, int), HaltView>(
                halt@,
            ),
        },
{
    // Expect the `9=` tag. With fewer than 2 bytes we can't even test it yet.
    if buf.len() - start < 2 {
        return Err(Halt::Incomplete);
    }
    if buf[start] != ASCII_9 || buf[start + 1] != ASCII_EQUALS {
        return Err(structural_garble(GarbledReason::MissingBodyLength, buf));
    }
    // Digits run from just after `9=` to the terminating SOH, bounded by the cap.
    let digits_start = start + 2;
    let search_end = if buf.len() - digits_start < MAX_BODY_LENGTH_DIGITS + 1 {
        buf.len()
    } else {
        digits_start + MAX_BODY_LENGTH_DIGITS + 1
    };
    let soh = match position_of(buf, digits_start, search_end, SOH) {
        Some(soh) => soh,
        // Out-of-buffer first, cap-exceeded second - same ordering as BeginString.
        None => {
            if buf.len() - digits_start <= MAX_BODY_LENGTH_DIGITS {
                return Err(Halt::Incomplete);
            } else {
                return Err(structural_garble(GarbledReason::MalformedBodyLength, buf));
            }
        },
    };
    if soh == digits_start || !digits_only(buf, digits_start, soh) {
        return Err(structural_garble(GarbledReason::MalformedBodyLength, buf));
    }
    let body_length = match decimal_usize(buf, digits_start, soh) {
        Some(value) => value,
        None => return Err(structural_garble(GarbledReason::MalformedBodyLength, buf)),
    };
    // just past the BodyLength SOH
    Ok((body_length, soh + 1))
}

/// The total frame length implied by BodyLength, bounded and fully buffered.
///
/// `FrameTooLarge` if it exceeds `max_frame_size`; `Incomplete` if the frame
/// hasn't fully arrived. The frame's content is not inspected here.
fn validated_frame_len(buf: &[u8], body_start: usize, body_length: usize, max_frame_size: usize) -> (r:
    Result<usize, Halt>)
    requires
        starts_with_begin(buf@),
        6 <= body_start <= buf@.len(),
    ensures
        match r {
            Ok(len) => spec_frame_len(buf@, body_start as int, body_length as int, max_frame_size as int)
                == Ok::<int, HaltView>(len as int),
            Err(halt) => spec_frame_len(
                buf@,
                body_start as int,
                body_length as int,
                max_frame_size as int,
            ) == Err::<int, HaltView>(halt@),
        },
{
    let frame_len = body_start.saturating_add(body_length).saturating_add(CHECKSUM_FIELD_LEN);
    if frame_len > max_frame_size {
        return Err(structural_garble(GarbledReason::FrameTooLarge, buf));
    }
    if buf.len() < frame_len {
        return Err(Halt::Incomplete);
    }
    // A frame longer than `usize::MAX` bytes can never be fully buffered.
    if buf.len() - body_start < body_length || buf.len() - body_start - body_length
        < CHECKSUM_FIELD_LEN {
        return Err(Halt::Incomplete);
    }
    Ok(frame_len)
}

/// Confirms BodyLength's jump landed on the CheckSum field: `10=` at a field
/// boundary (SOH just before). A miss means BodyLength was wrong, so resync
/// over the whole buffer.
fn verify_trailer_start(buf: &[u8], checksum_start: usize) -> (r: Result<(), Halt>)
    requires
        !is_begin_prefix(buf@),
        1 <= checksum_start,
        checksum_start + 3 <= buf@.len(),
    ensures
        match r {
            Ok(()) => spec_verify_trailer_start(buf@, checksum_start as int) == Ok::<(), HaltView>(()),
            Err(halt) => spec_verify_trailer_start(buf@, checksum_start as int) == Err::<
                (),
                HaltView,
            >(halt@),
        },
{
    let ghost tag = buf@.subrange(checksum_start as int, checksum_start + 3);
    if buf[checksum_start - 1] != SOH || buf[checksum_start] != ASCII_1 || buf[checksum_start + 1]
        != ASCII_0 || buf[checksum_start + 2] != ASCII_EQUALS {
        assert(buf[checksum_start - 1] != SOH || tag != checksum_tag()) by {
            if tag == checksum_tag() {
                assert(tag[0] == buf@[checksum_start as int]);
                assert(tag[1] == buf@[checksum_start + 1]);
                assert(tag[2] == buf@[checksum_start + 2]);
            }
        }
        return Err(structural_garble(GarbledReason::BodyLengthMismatch, buf));
    }
    assert(tag =~= checksum_tag());
    Ok(())
}

/// Verifies the `<CheckSum><SOH>` at `checksum_start`, the `10=` landing
/// having already been confirmed.
fn verify_checksum(frame: &[u8], checksum_start: usize) -> (r: Result<(), Halt>)
    requires
        checksum_start + 7 <= frame@.len(),
    ensures
        match r {
            Ok(()) => spec_verify_checksum(frame@, checksum_start as int) == Ok::<(), HaltView>(()),
            Err(halt) => spec_verify_checksum(frame@, checksum_start as int) == Err::<(), HaltView>(
                halt@,
            ),
        },
{
    let frame_len = frame.len();
    assert(checksum_start + 7 <= frame_len);
    let trailing_soh = frame[checksum_start + 6];
    if trailing_soh != SOH || !digits_only(frame, checksum_start + 3, checksum_start + 6) {
        return Err(post_structural_garble(GarbledReason::MalformedChecksum, frame));
    }
    let ghost digits = frame@.subrange(checksum_start + 3, checksum_start + 6);
    assert(is_digit(digits[0]) && is_digit(digits[1]) && is_digit(digits[2]));
    let stated = (frame[checksum_start + 3] - DIGIT_ZERO) as u16 * 100 + (frame[checksum_start + 4]
        - DIGIT_ZERO) as u16 * 10 + (frame[checksum_start + 5] - DIGIT_ZERO) as u16;
    proof {
        lemma_decimal_step(digits, 0);
        lemma_decimal_step(digits, 1);
        lemma_decimal_step(digits, 2);
        assert(digits.take(0) =~= Seq::<u8>::empty());
        assert(digits.take(3) =~= digits);
    }
    let mut computed: u8 = 0;
    let mut i: usize = 0;
    assert(frame@.take(0) =~= Seq::<u8>::empty());
    while i < checksum_start
        invariant
            i <= checksum_start,
            checksum_start + 7 <= frame@.len(),
            computed as int == byte_sum(frame@.take(i as int)) % 256,
        decreases checksum_start - i,
    {
        proof {
            let s = byte_sum(frame@.take(i as int));
            assert(frame@.take(i + 1).drop_last() =~= frame@.take(i as int));
            assert(byte_sum(frame@.take(i + 1)) == s + frame@[i as int]);
            lemma_add_mod_noop(s as int, frame@[i as int] as int, 256);
            assert((frame@[i as int] as int) % 256 == frame@[i as int] as int);
        }
        computed = computed.wrapping_add(frame[i]);
        i = i + 1;
    }
    if computed as u16 != stated {
        return Err(post_structural_garble(GarbledReason::ChecksumMismatch, frame));
    }
    Ok(())
}

/// Parses `MsgType(35)`, the third field of a message.
fn parse_msg_type<'a>(frame: &'a [u8], body_start: usize, body_length: usize) -> (r: Result<
    &'a [u8],
    Halt,
>)
    requires
        body_start + body_length <= frame@.len(),
    ensures
        match r {
            Ok(msg_type) => spec_parse_msg_type(frame@, body_start as int, body_length as int)
                == Ok::<Seq<u8>, HaltView>(msg_type@),
            Err(halt) => spec_parse_msg_type(frame@, body_start as int, body_length as int) == Err::<
                Seq<u8>,
                HaltView,
            >(halt@),
        },
{
    let ghost region = frame@.subrange(body_start as int, body_start + body_length);
    if body_length < 3 || frame[body_start] != ASCII_3 || frame[body_start + 1] != ASCII_5
        || frame[body_start + 2] != ASCII_EQUALS {
        assert(region.len() < 3 || region.take(3) != msg_type_tag()) by {
            if region.len() >= 3 && region.take(3) == msg_type_tag() {
                assert(region.take(3)[0] == frame@[body_start as int]);
                assert(region.take(3)[1] == frame@[body_start + 1]);
                assert(region.take(3)[2] == frame@[body_start + 2]);
            }
        }
        return Err(post_structural_garble(GarbledReason::MissingMsgType, frame));
    }
    assert(region.take(3) =~= msg_type_tag());
    let value_start = body_start + 3;
    assert(region.skip(3) =~= frame@.subrange(value_start as int, body_start + body_length));
    // The region's final byte is the SOH before `10=`, so a terminator is
    // always present once the tag matched.
    match position_of(frame, value_start, body_start + body_length, SOH) {
        Some(soh) => {
            let msg_type = slice_subrange(frame, value_start, soh);
            assert(msg_type@ =~= region.skip(3).take(soh - value_start));
            Ok(msg_type)
        },
        None => Err(post_structural_garble(GarbledReason::MissingMsgType, frame)),
    }
}

/// The name under which a garble's reason is reported to Python.
pub open spec fn reason_name(reason: GarbledReason) -> Seq<char> {
    match reason {
        GarbledReason::MissingBeginString => "missing_begin_string"@,
        GarbledReason::MalformedBeginString => "malformed_begin_string"@,
        GarbledReason::MissingBodyLength => "missing_body_length"@,
        GarbledReason::MalformedBodyLength => "malformed_body_length"@,
        GarbledReason::BodyLengthMismatch => "body_length_mismatch"@,
        GarbledReason::MissingMsgType => "missing_msg_type"@,
        GarbledReason::MalformedChecksum => "malformed_checksum"@,
        GarbledReason::ChecksumMismatch => "checksum_mismatch"@,
        GarbledReason::FrameTooLarge => "frame_too_large"@,
    }
}

/// The snake_case name of a garble's reason, as the Python bindings report
/// it.
pub fn reason_str(reason: GarbledReason) -> (name: &'static str)
    ensures
        name@ == reason_name(reason),
{
    match reason {
        GarbledReason::MissingBeginString => "missing_begin_string",
        GarbledReason::MalformedBeginString => "malformed_begin_string",
        GarbledReason::MissingBodyLength => "missing_body_length",
        GarbledReason::MalformedBodyLength => "malformed_body_length",
        GarbledReason::BodyLengthMismatch => "body_length_mismatch",
        GarbledReason::MissingMsgType => "missing_msg_type",
        GarbledReason::MalformedChecksum => "malformed_checksum",
        GarbledReason::ChecksumMismatch => "checksum_mismatch",
        GarbledReason::FrameTooLarge => "frame_too_large",
    }
}

} // verus!
