//! Tokenising: splitting one framed FIX message into its fields.
//!
//! Every byte of the frame lands in exactly one field: a run that can't be
//! read as `tag=value` is indexed under [`MALFORMED_TAG`], and the value of a
//! data field announced by a length tag is read by its stated extent, so it
//! may contain SOH.
use vstd::prelude::*;
use vstd::slice::slice_subrange;
use bytes::Bytes;
use crate::buffers::{bytes_as_slice, bytes_content};
use crate::bytes_spec::{
    SOH, all_digits, decimal_u32, decimal_value, digits_only, find_byte, lemma_find_byte,
    position_of,
};
use crate::framing::{
    ASCII_EQUALS, GarbledReason, OutcomeView, Outcome, Scanner, spec_scan,
};
use crate::framing_laws::lemma_frame_shape;
use crate::length_tags;
use crate::message::{MALFORMED_TAG, RawField, RawMessage, fields_in_bounds};

verus! {

// ---------------------------------------------------------------------------
// The model
// ---------------------------------------------------------------------------

/// `b` ends a tag: `=` normally, SOH in a malformed field.
pub open spec fn is_tag_end(b: u8) -> bool {
    b == ASCII_EQUALS || b == SOH
}

/// Offset of the first `=` or SOH in `w`, if any.
pub open spec fn find_tag_end(w: Seq<u8>) -> Option<int>
    decreases w.len(),
{
    if w.len() == 0 {
        None
    } else if is_tag_end(w[0]) {
        Some(0)
    } else {
        match find_tag_end(w.drop_first()) {
            Some(i) => Some(i + 1),
            None => None,
        }
    }
}

/// `find_tag_end` returns the first `=` or SOH, or `None` when there is none.
pub proof fn lemma_find_tag_end(w: Seq<u8>)
    ensures
        match find_tag_end(w) {
            Some(i) => 0 <= i < w.len() && is_tag_end(w[i]) && forall|j: int|
                0 <= j < i ==> !is_tag_end(#[trigger] w[j]),
            None => forall|j: int| 0 <= j < w.len() ==> !is_tag_end(#[trigger] w[j]),
        },
    decreases w.len(),
{
    if w.len() > 0 && !is_tag_end(w[0]) {
        lemma_find_tag_end(w.drop_first());
        assert forall|j: int| 0 < j < w.len() implies w[j] == w.drop_first()[j - 1] by {}
    }
}

/// ASCII digits read as a `u32`: `None` for an empty run, any non-digit
/// (including a sign), or a value that overflows.
pub open spec fn spec_parse_u32(digits: Seq<u8>) -> Option<u32> {
    if digits.len() == 0 || !all_digits(digits) || decimal_value(digits) > u32::MAX {
        None
    } else {
        Some(decimal_value(digits) as u32)
    }
}

/// End of a length-delimited value starting at `value_start` and claiming
/// `len` bytes: only when the byte just past the claimed extent is SOH.
pub open spec fn spec_data_value_end(bytes: Seq<u8>, value_start: int, len: int) -> Option<int> {
    let end = value_start + len;
    if end > usize::MAX {
        None
    } else if end < bytes.len() && bytes[end] == SOH {
        Some(end)
    } else {
        None
    }
}

/// The field starting at `pos` and the offset just past it. `data_len` is
/// the length the previous field announced for this one's value, if any: a
/// length that overruns the frame or lands mid-value is distrusted and the
/// value runs to the next SOH instead.
pub open spec fn spec_next_field(bytes: Seq<u8>, pos: int, data_len: Option<int>) -> Option<
    (RawField, int),
> {
    if pos < 0 || pos > bytes.len() {
        None
    } else {
        match find_tag_end(bytes.skip(pos)) {
            None => None,
            Some(rel) => {
                let delimiter = pos + rel;
                if bytes[delimiter] == ASCII_EQUALS {
                    let tag = match spec_parse_u32(bytes.subrange(pos, delimiter)) {
                        Some(tag) => tag,
                        None => MALFORMED_TAG,
                    };
                    let value_start = delimiter + 1;
                    let by_extent = match data_len {
                        Some(len) => spec_data_value_end(bytes, value_start, len),
                        None => None,
                    };
                    let value_end = match by_extent {
                        Some(end) => end,
                        None => match find_byte(bytes.skip(value_start), SOH) {
                            Some(r) => value_start + r,
                            None => bytes.len() as int,
                        },
                    };
                    Some(
                        (
                            RawField {
                                tag,
                                value_start: value_start as u32,
                                value_end: value_end as u32,
                            },
                            value_end + 1,
                        ),
                    )
                } else {
                    Some(
                        (
                            RawField {
                                tag: MALFORMED_TAG,
                                value_start: pos as u32,
                                value_end: delimiter as u32,
                            },
                            delimiter + 1,
                        ),
                    )
                }
            },
        }
    }
}

/// The value of `field` when its tag is one of `length_tags` and its value
/// is a well-formed length: the extent of the next field's value.
pub open spec fn spec_pending_data_len(length_tags: Seq<u32>, bytes: Seq<u8>, field: RawField) -> Option<int> {
    if !length_tags.contains(field.tag) {
        None
    } else {
        match spec_parse_u32(bytes.subrange(field.value_start as int, field.value_end as int)) {
            Some(len) => Some(len as int),
            None => None,
        }
    }
}

/// A length tag announces the extent of the next value: when a field's tag
/// is one of `length_tags` and its value is one or more digits worth at
/// most `u32::MAX`, that value, whatever its size, is the announced length.
pub proof fn lemma_length_field_announces(length_tags: Seq<u32>, bytes: Seq<u8>, field: RawField)
    requires
        length_tags.contains(field.tag),
        field.value_start < field.value_end <= bytes.len(),
        all_digits(bytes.subrange(field.value_start as int, field.value_end as int)),
        decimal_value(bytes.subrange(field.value_start as int, field.value_end as int)) <= u32::MAX,
    ensures
        spec_pending_data_len(length_tags, bytes, field) == Some(
            decimal_value(bytes.subrange(field.value_start as int, field.value_end as int)) as int,
        ),
{
}

/// An announced length delimits the value it announces: the value of a
/// field read with length `len` runs exactly `len` bytes from just after
/// its `=`, whenever the byte there is the SOH that ends it, SOH included
/// in the value or not.
pub proof fn lemma_announced_length_delimits(bytes: Seq<u8>, pos: int, len: int)
    requires
        0 <= pos <= bytes.len() <= u32::MAX,
        len >= 0,
        find_tag_end(bytes.skip(pos)) is Some,
        bytes[pos + find_tag_end(bytes.skip(pos))->0] == ASCII_EQUALS,
        pos + find_tag_end(bytes.skip(pos))->0 + 1 + len < bytes.len(),
        bytes[pos + find_tag_end(bytes.skip(pos))->0 + 1 + len] == SOH,
    ensures
        spec_next_field(bytes, pos, Some(len)) matches Some((field, next)) && field.value_start
            == pos + find_tag_end(bytes.skip(pos))->0 + 1 && field.value_end == field.value_start
            + len && next == field.value_end + 1,
{
    lemma_find_tag_end(bytes.skip(pos));
}

/// Every field from `pos` to the end of `bytes`, in wire order.
pub open spec fn spec_fields(length_tags: Seq<u32>, bytes: Seq<u8>, pos: int, data_len: Option<int>) -> Seq<RawField>
    decreases bytes.len() + 1 - pos,
{
    match spec_next_field(bytes, pos, data_len) {
        None => seq![],
        Some((field, next)) => if pos < next <= bytes.len() + 1 {
            seq![field] + spec_fields(
                length_tags,
                bytes,
                next,
                spec_pending_data_len(length_tags, bytes, field),
            )
        } else {
            seq![]
        },
    }
}

/// The index of a frame: every field, in wire order.
pub open spec fn spec_tokenize_fields(length_tags: Seq<u32>, bytes: Seq<u8>) -> Seq<RawField> {
    spec_fields(length_tags, bytes, 0, None)
}

/// The frame-level verdict on bytes handed to the tokeniser: exactly one
/// well-framed message, small enough for `u32` offsets.
pub open spec fn spec_check_frame(bytes: Seq<u8>) -> Result<(), TokenizeError> {
    match spec_scan(u32::MAX as int, bytes) {
        OutcomeView::Frame(frame) => if frame.bytes.len() != bytes.len() {
            Err(TokenizeError::TrailingBytes { frame_len: frame.bytes.len() as usize })
        } else {
            Ok(())
        },
        OutcomeView::Incomplete => Err(TokenizeError::Incomplete),
        OutcomeView::Garbled { reason, .. } => if reason == GarbledReason::FrameTooLarge {
            Err(TokenizeError::TooLargeToIndex)
        } else {
            Err(TokenizeError::Garbled(reason))
        },
    }
}

/// The index tiles `bytes`: each value ends on SOH, the next field starts
/// after it, and the last value's SOH ends the bytes.
pub open spec fn tiles(fields: Seq<RawField>, bytes: Seq<u8>) -> bool {
    &&& forall|i: int|
        0 <= i < fields.len() ==> #[trigger] fields[i].value_start <= fields[i].value_end
            < bytes.len() && bytes[fields[i].value_end as int] == SOH
    &&& forall|i: int|
        0 < i < fields.len() ==> fields[i - 1].value_end < #[trigger] fields[i].value_start
    &&& fields.len() == 0 ==> bytes.len() == 0
    &&& fields.len() > 0 ==> fields.last().value_end + 1 == bytes.len()
}

// ---------------------------------------------------------------------------
// The tokeniser
// ---------------------------------------------------------------------------

/// The tags are in strictly ascending order.
pub open spec fn strictly_ascending(tags: Seq<u32>) -> bool {
    forall|i: int, j: int| 0 <= i < j < tags.len() ==> tags[i] < tags[j]
}

/// Splits a framed FIX message into its fields.
#[derive(Debug)]
pub struct Tokenizer {
    length_tags: Vec<u32>,
}

/// Issues that can arise when the bytes handed to the tokeniser are not a
/// valid FIX message.
#[derive(Clone, Copy, Debug, PartialEq)]
pub enum TokenizeError {
    /// The bytes fail the frame-level checks.
    Garbled(GarbledReason),
    /// The bytes end mid-message.
    Incomplete,
    /// One message was found, but the input continues past it.
    TrailingBytes { frame_len: usize },
    /// The frame is too long for the index's `u32` offsets to address.
    TooLargeToIndex,
}

impl Clone for Tokenizer {
    fn clone(&self) -> (copy: Self)
        ensures
            copy.length_tags() == self.length_tags(),
    {
        proof {
            use_type_invariant(self);
        }
        let mut tags: Vec<u32> = Vec::new();
        let mut i: usize = 0;
        while i < self.length_tags.len()
            invariant
                i <= self.length_tags@.len(),
                tags@ == self.length_tags@.take(i as int),
            decreases self.length_tags@.len() - i,
        {
            tags.push(self.length_tags[i]);
            i = i + 1;
            assert(tags@ =~= self.length_tags@.take(i as int));
        }
        assert(tags@ =~= self.length_tags@);
        Tokenizer { length_tags: tags }
    }
}

impl Default for Tokenizer {
    fn default() -> (tokenizer: Self)
        ensures
            tokenizer.length_tags() == length_tags::standard(),
    {
        Self { length_tags: length_tags::standard_tags() }
    }
}

impl Tokenizer {
    /// The length tags this tokeniser honours, in ascending order.
    pub closed spec fn length_tags(&self) -> Seq<u32> {
        self.length_tags@
    }

    #[verifier::type_invariant]
    closed spec fn well_formed(&self) -> bool {
        strictly_ascending(self.length_tags@)
    }

    /// Constructs a [`Tokenizer`] with additional (non-standard) length tags.
    ///
    /// The supplied values are additive, they never replace the standard set.
    /// Tag 0 is reserved as the malformed-field sentinel and is ignored.
    pub fn with_extra_length_tags(extras: &[u32]) -> (tokenizer: Self)
        ensures
            forall|tag: u32|
                tokenizer.length_tags().contains(tag) <==> (length_tags::standard().contains(tag)
                    || (extras@.contains(tag) && tag != MALFORMED_TAG)),
    {
        let mut tags = length_tags::standard_tags();
        proof {
            reveal_with_fuel(Seq::<u32>::contains, 1);
        }
        let mut i: usize = 0;
        while i < extras.len()
            invariant
                i <= extras@.len(),
                strictly_ascending(tags@),
                forall|tag: u32|
                    tags@.contains(tag) <==> (length_tags::standard().contains(tag) || (
                    extras@.take(i as int).contains(tag) && tag != MALFORMED_TAG)),
            decreases extras@.len() - i,
        {
            let tag = extras[i];
            if tag != MALFORMED_TAG {
                insert_sorted(&mut tags, tag);
            }
            proof {
                let before = extras@.take(i as int);
                let after = extras@.take(i + 1);
                assert(after =~= before.push(tag));
                assert forall|t: u32| after.contains(t) <==> (before.contains(t) || t == tag) by {
                    if after.contains(t) {
                        let k = choose|k: int| 0 <= k < after.len() && after[k] == t;
                        if k < before.len() {
                            assert(before[k] == t);
                        }
                    }
                    if before.contains(t) {
                        let k = choose|k: int| 0 <= k < before.len() && before[k] == t;
                        assert(after[k] == t);
                    }
                    if t == tag {
                        assert(after[i as int] == t);
                    }
                }
            }
            i = i + 1;
        }
        assert(extras@.take(extras@.len() as int) =~= extras@);
        Self { length_tags: tags }
    }

    /// Whether `tag` announces the length of the next field's value.
    pub fn is_length_tag(&self, tag: u32) -> (is: bool)
        ensures
            is == self.length_tags().contains(tag),
    {
        proof {
            use_type_invariant(self);
        }
        let tags = &self.length_tags;
        if tags.len() == 0 || tag < tags[0] {
            proof {
                if self.length_tags().contains(tag) {
                    let k = choose|k: int| 0 <= k < tags@.len() && tags@[k] == tag;
                    assert(k == 0 || tags@[0] < tags@[k]);
                }
            }
            return false;
        }
        let mut lo: usize = 0;
        let mut hi: usize = tags.len();
        while lo < hi
            invariant
                0 <= lo <= hi <= tags@.len(),
                tags@ == self.length_tags(),
                strictly_ascending(tags@),
                forall|k: int| 0 <= k < lo ==> tags@[k] < tag,
                forall|k: int| hi <= k < tags@.len() ==> tags@[k] > tag,
            decreases hi - lo,
        {
            let mid = lo + (hi - lo) / 2;
            if tags[mid] == tag {
                return true;
            } else if tags[mid] < tag {
                assert forall|k: int| 0 <= k <= mid implies tags@[k] < tag by {
                    if k < mid {
                        assert(tags@[k] < tags@[mid as int]);
                    }
                }
                lo = mid + 1;
            } else {
                assert forall|k: int| mid <= k < tags@.len() implies tags@[k] > tag by {
                    if k > mid {
                        assert(tags@[mid as int] < tags@[k]);
                    }
                }
                hi = mid;
            }
        }
        proof {
            if self.length_tags().contains(tag) {
                let k = choose|k: int| 0 <= k < tags@.len() && tags@[k] == tag;
                assert(k < lo || k >= hi);
            }
        }
        false
    }

    /// Tokenises exactly one complete FIX message into a [`RawMessage`].
    ///
    /// The bytes must contain a single well-framed message.
    /// Frame-level issues surface as [`TokenizeError`], while malformed
    /// fields inside a valid frame are indexed under [`MALFORMED_TAG`].
    pub fn tokenize(&self, bytes: Bytes) -> (message: Result<RawMessage, TokenizeError>)
        ensures
            match spec_check_frame(bytes_content(bytes)) {
                Ok(()) => message matches Ok(m) && m.content() == bytes_content(bytes) && m.index()
                    == spec_tokenize_fields(self.length_tags(), bytes_content(bytes)),
                Err(e) => message == Err::<RawMessage, TokenizeError>(e),
            },
    {
        let fields = {
            let buf = bytes_as_slice(&bytes);
            match check_frame(buf) {
                Ok(()) => {},
                Err(e) => return Err(e),
            }
            proof {
                lemma_frame_shape(u32::MAX as int, buf@);
                lemma_fields_tile(self.length_tags(), buf@, 0, None);
            }
            self.tokenize_fields(buf)
        };
        Ok(RawMessage::new(bytes, fields))
    }

    /// The index of a frame that ends on SOH.
    pub(crate) fn tokenize_fields(&self, bytes: &[u8]) -> (fields: Vec<RawField>)
        requires
            bytes@.len() <= u32::MAX,
            bytes@.len() < usize::MAX,
        ensures
            fields@ == spec_tokenize_fields(self.length_tags(), bytes@),
    {
        let mut fields: Vec<RawField> = Vec::with_capacity(bytes.len() / 8);
        let mut pos: usize = 0;
        let mut data_len: Option<usize> = None;
        loop
            invariant
                bytes@.len() <= u32::MAX,
                bytes@.len() < usize::MAX,
                pos <= bytes@.len() + 1,
                fields@ + spec_fields(
                    self.length_tags(),
                    bytes@,
                    pos as int,
                    match data_len {
                        Some(len) => Some(len as int),
                        None => None,
                    },
                ) == spec_tokenize_fields(self.length_tags(), bytes@),
            ensures
                fields@ == spec_tokenize_fields(self.length_tags(), bytes@),
            decreases bytes@.len() + 1 - pos,
        {
            let ghost dl = match data_len {
                Some(len) => Some(len as int),
                None => None::<int>,
            };
            proof {
                lemma_next_field_advances(bytes@, pos as int, dl);
            }
            match next_field(bytes, pos, data_len) {
                None => {
                    assert(fields@ + Seq::<RawField>::empty() =~= fields@);
                    break ;
                },
                Some((field, next)) => {
                    let ghost rest = spec_fields(
                        self.length_tags(),
                        bytes@,
                        next as int,
                        spec_pending_data_len(self.length_tags(), bytes@, field),
                    );
                    data_len = self.pending_data_len(bytes, field);
                    fields.push(field);
                    pos = next;
                    assert(fields@ + rest =~= fields@.drop_last() + (seq![field] + rest));
                },
            }
        }
        fields
    }

    /// The value of `field` when it is a well-formed length tag, so the next
    /// field's value can be read by extent instead of scanned for SOH.
    fn pending_data_len(&self, bytes: &[u8], field: RawField) -> (len: Option<usize>)
        requires
            field.value_start <= field.value_end <= bytes@.len(),
        ensures
            match spec_pending_data_len(self.length_tags(), bytes@, field) {
                Some(l) => len == Some(l as usize) && l == len->0,
                None => len is None,
            },
    {
        if !self.is_length_tag(field.tag) {
            return None;
        }
        let value = slice_subrange(bytes, field.value_start as usize, field.value_end as usize);
        match parse_u32(value) {
            Some(len) => Some(len as usize),
            None => None,
        }
    }
}

/// Parses ASCII digits into a `u32`.
///
/// Rejects empty input, any non-digit (including a leading sign) and overflow.
pub fn parse_u32(digits: &[u8]) -> (value: Option<u32>)
    ensures
        value == spec_parse_u32(digits@),
{
    let len = digits.len();
    assert(digits@.subrange(0, len as int) =~= digits@);
    if len == 0 || !digits_only(digits, 0, len) {
        return None;
    }
    decimal_u32(digits, 0, len)
}

/// Offset of the first `=` or SOH at or after `from`.
///
/// This is specifically used to find the ending byte of a tag, which would
/// normally be `=`, but potentially a SOH in malformed fields.
fn position_of_tag_end(bytes: &[u8], from: usize) -> (r: Option<usize>)
    requires
        from <= bytes@.len(),
    ensures
        match find_tag_end(bytes@.skip(from as int)) {
            Some(rel) => r == Some((from + rel) as usize),
            None => r is None,
        },
        r matches Some(d) ==> from <= d < bytes@.len(),
{
    let ghost w = bytes@.skip(from as int);
    let mut i = from;
    while i < bytes.len()
        invariant
            from <= i <= bytes@.len(),
            w == bytes@.skip(from as int),
            forall|j: int| 0 <= j < i - from ==> !is_tag_end(#[trigger] w[j]),
        decreases bytes@.len() - i,
    {
        if bytes[i] == ASCII_EQUALS || bytes[i] == SOH {
            assert(is_tag_end(w[i - from]));
            proof {
                lemma_find_tag_end(w);
                match find_tag_end(w) {
                    Some(rel) => {
                        if rel < i - from {
                            assert(!is_tag_end(w[rel]));
                        } else if rel > i - from {
                            assert(!is_tag_end(w[i - from]));
                        }
                    },
                    None => {
                        assert(!is_tag_end(w[i - from]));
                    },
                }
            }
            return Some(i);
        }
        assert(!is_tag_end(w[i - from]));
        i = i + 1;
    }
    proof {
        lemma_find_tag_end(w);
        if let Some(rel) = find_tag_end(w) {
            assert(!is_tag_end(w[rel]));
        }
    }
    None
}

/// The field starting at `pos`, read as [`spec_next_field`] states.
fn next_field(bytes: &[u8], pos: usize, data_len: Option<usize>) -> (r: Option<(RawField, usize)>)
    requires
        bytes@.len() <= u32::MAX,
        bytes@.len() < usize::MAX,
    ensures
        match spec_next_field(
            bytes@,
            pos as int,
            match data_len {
                Some(len) => Some(len as int),
                None => None,
            },
        ) {
            Some((field, next)) => r == Some((field, next as usize)),
            None => r is None,
        },
{
    if pos > bytes.len() {
        return None;
    }
    let delimiter = match position_of_tag_end(bytes, pos) {
        Some(d) => d,
        None => return None,
    };
    let ghost dl = match data_len {
        Some(len) => Some(len as int),
        None => None::<int>,
    };
    proof {
        lemma_next_field_advances(bytes@, pos as int, dl);
        lemma_find_tag_end(bytes@.skip(pos as int));
    }
    if bytes[delimiter] == ASCII_EQUALS {
        let tag = match parse_u32(slice_subrange(bytes, pos, delimiter)) {
            Some(tag) => tag,
            None => MALFORMED_TAG,
        };
        let value_start = delimiter + 1;
        let by_extent = match data_len {
            Some(len) => data_value_end(bytes, value_start, len),
            None => None,
        };
        let value_end = match by_extent {
            Some(end) => end,
            None => {
                assert(bytes@.subrange(value_start as int, bytes@.len() as int) =~= bytes@.skip(
                    value_start as int,
                ));
                match position_of(bytes, value_start, bytes.len(), SOH) {
                    Some(end) => end,
                    None => bytes.len(),
                }
            },
        };
        let field = RawField {
            tag,
            value_start: value_start as u32,
            value_end: value_end as u32,
        };
        assert(spec_next_field(bytes@, pos as int, dl) == Some((field, value_end + 1)));
        Some((field, value_end + 1))
    } else {
        let field = RawField { tag: MALFORMED_TAG, value_start: pos as u32, value_end: delimiter as u32 };
        Some((field, delimiter + 1))
    }
}

/// End of a length-delimited value.
///
/// Returns `None` unless the byte immediately after the claimed extent is SOH.
/// A length that overruns the frame or lands mid-value is distrusted and the
/// caller falls back to SOH scanning.
fn data_value_end(bytes: &[u8], value_start: usize, len: usize) -> (end: Option<usize>)
    ensures
        match spec_data_value_end(bytes@, value_start as int, len as int) {
            Some(e) => end == Some(e as usize) && value_start <= e < bytes@.len(),
            None => end is None,
        },
{
    let end = match value_start.checked_add(len) {
        Some(end) => end,
        None => return None,
    };
    if end < bytes.len() && bytes[end] == SOH {
        Some(end)
    } else {
        None
    }
}

/// The frame-level check: exactly one well-framed message.
fn check_frame(bytes: &[u8]) -> (r: Result<(), TokenizeError>)
    ensures
        r == spec_check_frame(bytes@),
{
    let scanner = Scanner::new(u32::MAX as usize);
    match scanner.scan(bytes) {
        Outcome::Frame(frame) => {
            if frame.bytes.len() != bytes.len() {
                Err(TokenizeError::TrailingBytes { frame_len: frame.bytes.len() })
            } else {
                Ok(())
            }
        },
        Outcome::Incomplete => Err(TokenizeError::Incomplete),
        Outcome::Garbled { reason: GarbledReason::FrameTooLarge, .. } => Err(
            TokenizeError::TooLargeToIndex,
        ),
        Outcome::Garbled { reason, .. } => Err(TokenizeError::Garbled(reason)),
    }
}

// ---------------------------------------------------------------------------
// Laws
// ---------------------------------------------------------------------------

/// Each step of tokenising moves forward and stays within one byte past the
/// end.
proof fn lemma_next_field_advances(bytes: Seq<u8>, pos: int, data_len: Option<int>)
    requires
        bytes.len() <= u32::MAX,
        data_len matches Some(len) ==> len >= 0,
    ensures
        spec_next_field(bytes, pos, data_len) matches Some((field, next)) ==> {
            &&& pos < next <= bytes.len() + 1
            &&& pos <= field.value_start <= field.value_end <= bytes.len()
            &&& next == field.value_end + 1
        },
{
    if 0 <= pos <= bytes.len() {
        lemma_find_tag_end(bytes.skip(pos));
        if let Some(rel) = find_tag_end(bytes.skip(pos)) {
            let value_start = pos + rel + 1;
            if value_start <= bytes.len() {
                lemma_find_byte(bytes.skip(value_start), SOH);
            }
        }
    }
}

/// In bytes that end on SOH, a field starts at every offset before the end,
/// and its value ends on an SOH inside the bytes.
proof fn lemma_field_ends_on_soh(bytes: Seq<u8>, pos: int, data_len: Option<int>)
    requires
        0 <= pos < bytes.len() <= u32::MAX,
        bytes.last() == SOH,
        data_len matches Some(len) ==> len >= 0,
    ensures
        spec_next_field(bytes, pos, data_len) matches Some((field, next)) && field.value_end
            < bytes.len() && bytes[field.value_end as int] == SOH,
{
    let w = bytes.skip(pos);
    lemma_find_tag_end(w);
    assert(w[w.len() - 1] == bytes.last());
    assert(is_tag_end(w[w.len() - 1]));
    let rel = find_tag_end(w)->0;
    let delimiter = pos + rel;
    assert(bytes[delimiter] == w[rel]);
    if bytes[delimiter] == ASCII_EQUALS {
        let value_start = delimiter + 1;
        assert(value_start < bytes.len());
        let v = bytes.skip(value_start);
        lemma_find_byte(v, SOH);
        assert(v[v.len() - 1] == SOH);
        let r = find_byte(v, SOH)->0;
        assert(bytes[value_start + r] == v[r]);
    }
}

/// The fields of bytes that end on SOH tile them: from `pos`, each value
/// ends on SOH, each field starts after the previous value, and the last
/// value's SOH ends the bytes.
#[verifier::rlimit(30)]
pub proof fn lemma_fields_tile(length_tags: Seq<u32>, bytes: Seq<u8>, pos: int, data_len: Option<int>)
    requires
        0 <= pos <= bytes.len() <= u32::MAX,
        bytes.len() > 0,
        bytes.last() == SOH,
        data_len matches Some(len) ==> len >= 0,
    ensures
        tiles_from(spec_fields(length_tags, bytes, pos, data_len), bytes, pos),
        fields_in_bounds(spec_fields(length_tags, bytes, pos, data_len), bytes.len()),
    decreases bytes.len() - pos,
{
    let fields = spec_fields(length_tags, bytes, pos, data_len);
    if pos == bytes.len() {
        lemma_find_tag_end(bytes.skip(pos));
        assert(fields =~= Seq::<RawField>::empty());
    } else {
        lemma_field_ends_on_soh(bytes, pos, data_len);
        lemma_next_field_advances(bytes, pos, data_len);
        let (field, next) = spec_next_field(bytes, pos, data_len)->0;
        let pending = spec_pending_data_len(length_tags, bytes, field);
        lemma_fields_tile(length_tags, bytes, next, pending);
        let rest = spec_fields(length_tags, bytes, next, pending);
        assert(fields == seq![field] + rest);
        assert forall|i: int| 0 < i < fields.len() implies #[trigger] fields[i] == rest[i - 1] by {}
        assert(fields[0] == field);
        assert forall|i: int| 0 <= i < fields.len() implies pos <= #[trigger] fields[i].value_start
            <= fields[i].value_end < bytes.len() && bytes[fields[i].value_end as int] == SOH by {
            if i > 0 {
                assert(fields[i] == rest[i - 1]);
            }
        }
        assert forall|i: int| 0 < i < fields.len() implies fields[i - 1].value_end
            < #[trigger] fields[i].value_start by {
            if i > 1 {
                assert(fields[i - 1] == rest[i - 2]);
            }
            assert(fields[i] == rest[i - 1]);
        }
        if rest.len() > 0 {
            assert(fields.last() == rest.last());
        }
    }
}

/// The index tiles `bytes` from `pos` on: [`tiles`] for the bytes from `pos`.
pub open spec fn tiles_from(fields: Seq<RawField>, bytes: Seq<u8>, pos: int) -> bool {
    &&& forall|i: int|
        0 <= i < fields.len() ==> pos <= #[trigger] fields[i].value_start <= fields[i].value_end
            < bytes.len() && bytes[fields[i].value_end as int] == SOH
    &&& forall|i: int|
        0 < i < fields.len() ==> fields[i - 1].value_end < #[trigger] fields[i].value_start
    &&& fields.len() == 0 ==> pos == bytes.len()
    &&& fields.len() > 0 ==> fields.last().value_end + 1 == bytes.len()
}

/// A message the tokeniser accepts is tiled by its index: the fields cover
/// the frame in wire order without overlap, every value ends on SOH, and the
/// last SOH ends the frame.
pub proof fn lemma_tokenized_message_tiles(length_tags: Seq<u32>, bytes: Seq<u8>)
    requires
        spec_check_frame(bytes) is Ok,
        bytes.len() <= usize::MAX,
    ensures
        tiles(spec_tokenize_fields(length_tags, bytes), bytes),
{
    lemma_frame_shape(u32::MAX as int, bytes);
    lemma_fields_tile(length_tags, bytes, 0, None);
}

/// The tokeniser accepts exactly the bytes that are one whole frame to the
/// framing scanner with cap `u32::MAX`, so an accepted frame fits the
/// index's `u32` offsets.
pub proof fn lemma_accepted_frame_fits_index(bytes: Seq<u8>)
    requires
        bytes.len() <= usize::MAX,
    ensures
        spec_check_frame(bytes) is Ok <==> (spec_scan(u32::MAX as int, bytes) matches OutcomeView::Frame(f)
            && f.bytes == bytes),
        spec_check_frame(bytes) is Ok ==> bytes.len() <= u32::MAX,
{
    lemma_frame_shape(u32::MAX as int, bytes);
    if spec_scan(u32::MAX as int, bytes) is Frame {
        let f = spec_scan(u32::MAX as int, bytes)->Frame_0;
        if f.bytes.len() == bytes.len() {
            assert(f.bytes =~= bytes);
        }
    }
}

/// The tokeniser's verdict is the framing scanner's, with cap `u32::MAX`:
/// a frame that is all of the bytes is accepted; a shorter frame is
/// trailing bytes after a frame of that length; an incomplete scan is
/// incomplete; a frame too large is too large to index; any other garble is
/// that garble.
pub proof fn lemma_check_frame_verdicts(bytes: Seq<u8>)
    requires
        bytes.len() <= usize::MAX,
    ensures
        spec_check_frame(bytes) is Ok <==> (spec_scan(u32::MAX as int, bytes) matches OutcomeView::Frame(f)
            && f.bytes.len() == bytes.len()),
        (spec_check_frame(bytes) matches Err(TokenizeError::TrailingBytes { .. })) <==> (spec_scan(
            u32::MAX as int,
            bytes,
        ) matches OutcomeView::Frame(f) && f.bytes.len() < bytes.len()),
        spec_check_frame(bytes) matches Err(TokenizeError::TrailingBytes { frame_len }) ==> spec_scan(
            u32::MAX as int,
            bytes,
        )->Frame_0.bytes.len() == frame_len,
        spec_check_frame(bytes) == Err::<(), TokenizeError>(TokenizeError::Incomplete) <==> spec_scan(
            u32::MAX as int,
            bytes,
        ) is Incomplete,
        spec_check_frame(bytes) == Err::<(), TokenizeError>(TokenizeError::TooLargeToIndex) <==> (
        spec_scan(u32::MAX as int, bytes) matches OutcomeView::Garbled { reason, .. } && reason
            == GarbledReason::FrameTooLarge),
        spec_check_frame(bytes) matches Err(TokenizeError::Garbled(r)) ==> (spec_scan(
            u32::MAX as int,
            bytes,
        ) matches OutcomeView::Garbled { reason, .. } && reason == r && r
            != GarbledReason::FrameTooLarge),
        spec_scan(u32::MAX as int, bytes) matches OutcomeView::Garbled { reason, .. } ==> (reason
            == GarbledReason::FrameTooLarge || spec_check_frame(bytes) == Err::<(), TokenizeError>(
            TokenizeError::Garbled(reason),
        )),
{
    lemma_frame_shape(u32::MAX as int, bytes);
}

/// When the tokeniser reports trailing bytes, the frame it found is a
/// non-empty proper prefix of the input: `1 <= frame_len < len`.
pub proof fn lemma_trailing_frame_len_in_range(bytes: Seq<u8>)
    requires
        bytes.len() <= usize::MAX,
    ensures
        spec_check_frame(bytes) matches Err(TokenizeError::TrailingBytes { frame_len }) ==> 1
            <= frame_len < bytes.len(),
{
    lemma_frame_shape(u32::MAX as int, bytes);
}

/// Inserts `tag` into an ascending list of tags, unless present.
fn insert_sorted(tags: &mut Vec<u32>, tag: u32)
    requires
        strictly_ascending(old(tags)@),
    ensures
        strictly_ascending(final(tags)@),
        forall|t: u32| final(tags)@.contains(t) <==> (old(tags)@.contains(t) || t == tag),
{
    let mut i: usize = 0;
    while i < tags.len() && tags[i] < tag
        invariant
            i <= tags@.len(),
            tags@ == old(tags)@,
            strictly_ascending(tags@),
            forall|k: int| 0 <= k < i ==> tags@[k] < tag,
        decreases tags@.len() - i,
    {
        i = i + 1;
    }
    if i < tags.len() && tags[i] == tag {
        assert(tags@[i as int] == tag);
        return ;
    }
    let ghost before = tags@;
    tags.insert(i, tag);
    proof {
        let after = tags@;
        assert(after =~= before.insert(i as int, tag));
        assert forall|a: int, b: int| 0 <= a < b < after.len() implies after[a] < after[b] by {
            if b < i {
            } else if a < i && b == i {
            } else if a < i && b > i {
                assert(before[b - 1] >= tag) by {
                    assert(before[i as int] > tag);
                    if b - 1 > i {
                        assert(before[i as int] < before[b - 1]);
                    }
                }
            } else if a == i {
                assert(before[b - 1] >= before[i as int]);
            } else {
            }
        }
        assert forall|t: u32| after.contains(t) <==> (before.contains(t) || t == tag) by {
            if after.contains(t) {
                let k = choose|k: int| 0 <= k < after.len() && after[k] == t;
                if k < i {
                    assert(before[k] == t);
                } else if k > i {
                    assert(before[k - 1] == t);
                }
            }
            if before.contains(t) {
                let k = choose|k: int| 0 <= k < before.len() && before[k] == t;
                if k < i {
                    assert(after[k] == t);
                } else {
                    assert(after[k + 1] == t);
                }
            }
            if t == tag {
                assert(after[i as int] == t);
            }
        }
    }
}

} // verus!
