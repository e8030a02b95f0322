//! A tokenised message: the frame's bytes and an index of every field.
use vstd::prelude::*;
use vstd::slice::slice_subrange;
use vstd::string::StringSliceAdditionalSpecFns;
use vstd::utf8::valid_utf8;
use bytes::Bytes;
use crate::buffers::{bytes_as_slice, bytes_content};
use crate::text::{parse_i64, spec_parse_i64, str_from_utf8};
use crate::value::InvalidValue;

verus! {

/// Tag recorded for a run of bytes that could not be tokenised into a field.
pub const MALFORMED_TAG: u32 = 0;

/// A field's position in a message's index.
#[derive(Clone, Copy, Debug, Eq, PartialEq, Ord, PartialOrd)]
pub struct Slot(u32);

impl Slot {
    /// The first field of a message, always `BeginString`.
    pub fn start() -> (slot: Slot)
        ensures
            slot.position() == 0,
    {
        Slot(0)
    }

    /// The position this slot names in the index.
    pub closed spec fn position(self) -> nat {
        self.0 as nat
    }

    fn index(self) -> (i: usize)
        ensures
            i == self.position(),
    {
        self.0 as usize
    }
}

/// The tag and byte range of a field's value within the frame.
#[derive(Clone, Copy, Debug)]
pub struct RawField {
    pub tag: u32,
    pub value_start: u32,
    pub value_end: u32,
}

/// Every field's value range lies within a frame of `len` bytes.
pub open spec fn fields_in_bounds(fields: Seq<RawField>, len: nat) -> bool {
    forall|i: int|
        0 <= i < fields.len() ==> #[trigger] fields[i].value_start <= fields[i].value_end <= len
}

/// The first position at or after `from` whose field has `tag`.
pub open spec fn first_with_tag(fields: Seq<RawField>, tag: u32, from: int) -> Option<int>
    decreases fields.len() - from,
{
    if from < 0 || from >= fields.len() {
        None
    } else if fields[from].tag == tag {
        Some(from)
    } else {
        first_with_tag(fields, tag, from + 1)
    }
}

/// `first_with_tag` finds the first occurrence of the tag at or after
/// `from`, and `None` only when there is none.
pub proof fn lemma_first_with_tag(fields: Seq<RawField>, tag: u32, from: int)
    requires
        0 <= from,
    ensures
        match first_with_tag(fields, tag, from) {
            Some(i) => from <= i < fields.len() && fields[i].tag == tag && forall|j: int|
                from <= j < i ==> #[trigger] fields[j].tag != tag,
            None => forall|j: int| from <= j < fields.len() ==> #[trigger] fields[j].tag != tag,
        },
    decreases fields.len() - from,
{
    if from < fields.len() && fields[from].tag != tag {
        lemma_first_with_tag(fields, tag, from + 1);
    }
}

/// Raw bytes of a FIX message and an index of every field in wire order.
#[derive(Debug)]
pub struct RawMessage {
    bytes: Bytes,
    fields: Vec<RawField>,
}

impl Clone for RawMessage {
    fn clone(&self) -> (copy: Self)
        ensures
            copy.content() == self.content(),
            copy.index() == self.index(),
    {
        proof {
            use_type_invariant(self);
        }
        let mut fields: Vec<RawField> = Vec::new();
        let mut i: usize = 0;
        while i < self.fields.len()
            invariant
                i <= self.fields@.len(),
                fields@ == self.fields@.take(i as int),
            decreases self.fields@.len() - i,
        {
            fields.push(self.fields[i]);
            i = i + 1;
            assert(fields@ =~= self.fields@.take(i as int));
        }
        assert(fields@ =~= self.fields@);
        RawMessage { bytes: self.bytes.clone(), fields }
    }
}

impl RawMessage {
    /// The frame's bytes.
    pub closed spec fn content(&self) -> Seq<u8> {
        bytes_content(self.bytes)
    }

    /// The index: every field, in wire order.
    pub closed spec fn index(&self) -> Seq<RawField> {
        self.fields@
    }

    #[verifier::type_invariant]
    closed spec fn well_formed(&self) -> bool {
        fields_in_bounds(self.fields@, bytes_content(self.bytes).len())
    }

    /// The value of the field at position `i` of the index.
    pub open spec fn value_at(&self, i: int) -> Seq<u8> {
        self.content().subrange(
            self.index()[i].value_start as int,
            self.index()[i].value_end as int,
        )
    }

    /// A message over `bytes` with the index `fields`.
    pub fn new(bytes: Bytes, fields: Vec<RawField>) -> (message: Self)
        requires
            fields_in_bounds(fields@, bytes_content(bytes).len()),
        ensures
            message.content() == bytes_content(bytes),
            message.index() == fields@,
    {
        Self { bytes, fields }
    }

    /// The whole frame, from `8=` to the SOH after CheckSum.
    pub fn bytes(&self) -> (bytes: &Bytes)
        ensures
            bytes_content(*bytes) == self.content(),
    {
        &self.bytes
    }

    /// The index itself, for checking offset-level invariants.
    pub fn raw_fields(&self) -> (fields: &[RawField])
        ensures
            fields@ == self.index(),
    {
        self.fields.as_slice()
    }

    /// Value of the first occurrence of `tag`, scanning from the start.
    pub fn get(&self, tag: u32) -> (value: Option<&[u8]>)
        ensures
            match first_with_tag(self.index(), tag, 0) {
                Some(i) => value matches Some(v) && v@ == self.value_at(i),
                None => value is None,
            },
    {
        match self.find(tag, Slot::start()) {
            Some((_, value)) => Some(value),
            None => None,
        }
    }

    /// First occurrence of `tag` as UTF-8 text; `Ok(None)` when absent.
    pub fn get_str(&self, tag: u32) -> (text: Result<Option<&str>, InvalidValue>)
        ensures
            match first_with_tag(self.index(), tag, 0) {
                Some(i) => if valid_utf8(self.value_at(i)) {
                    text matches Ok(Some(s)) && s.spec_bytes() == self.value_at(i)
                } else {
                    text == Err::<Option<&str>, InvalidValue>(InvalidValue { tag })
                },
                None => text == Ok::<Option<&str>, InvalidValue>(None),
            },
    {
        let value = match self.get(tag) {
            Some(value) => value,
            None => return Ok(None),
        };
        match str_from_utf8(value) {
            Some(text) => Ok(Some(text)),
            None => Err(InvalidValue { tag }),
        }
    }

    /// First occurrence of `tag` parsed as an integer; `Ok(None)` when absent.
    ///
    /// The value must be an optional sign followed by digits that fit an
    /// `i64`; such text is ASCII, so a value that isn't UTF-8 is rejected as
    /// any other non-integer is.
    pub fn get_int(&self, tag: u32) -> (number: Result<Option<i64>, InvalidValue>)
        ensures
            match first_with_tag(self.index(), tag, 0) {
                Some(i) => match spec_parse_i64(self.value_at(i)) {
                    Some(n) => number == Ok::<Option<i64>, InvalidValue>(Some(n)),
                    None => number == Err::<Option<i64>, InvalidValue>(InvalidValue { tag }),
                },
                None => number == Ok::<Option<i64>, InvalidValue>(None),
            },
    {
        let value = match self.get(tag) {
            Some(value) => value,
            None => return Ok(None),
        };
        match parse_i64(value) {
            Some(n) => Ok(Some(n)),
            None => Err(InvalidValue { tag }),
        }
    }

    /// Every field as `(tag, value)`, in wire order, duplicates included.
    ///
    /// Includes an entry with [`MALFORMED_TAG`] for any byte run that could
    /// not be tokenised, so the entries cover the whole frame.
    pub fn entries(&self) -> (entries: Vec<(u32, &[u8])>)
        ensures
            entries@.len() == self.index().len(),
            forall|i: int|
                0 <= i < entries@.len() ==> (#[trigger] entries@[i]).0 == self.index()[i].tag
                    && entries@[i].1@ == self.value_at(i),
    {
        let mut entries: Vec<(u32, &[u8])> = Vec::new();
        let mut i: usize = 0;
        while i < self.fields.len()
            invariant
                i <= self.fields@.len(),
                entries@.len() == i,
                forall|j: int|
                    0 <= j < i ==> (#[trigger] entries@[j]).0 == self.index()[j].tag
                        && entries@[j].1@ == self.value_at(j),
            decreases self.fields@.len() - i,
        {
            let field = self.fields[i];
            assert(self.index()[i as int] == field);
            entries.push((field.tag, self.slice(field)));
            i = i + 1;
        }
        entries
    }

    /// First occurrence of `tag` at or after `from`, with its slot so the
    /// caller can continue or bound a range.
    fn find(&self, tag: u32, from: Slot) -> (found: Option<(Slot, &[u8])>)
        ensures
            match first_with_tag(self.index(), tag, from.position() as int) {
                Some(i) => found matches Some((_, v)) && v@ == self.value_at(i),
                None => found is None,
            },
    {
        proof {
            lemma_first_with_tag(self.index(), tag, from.position() as int);
        }
        let start = from.index();
        if start > self.fields.len() {
            return None;
        }
        let mut i = start;
        while i < self.fields.len()
            invariant
                start <= i <= self.fields@.len(),
                start == from.position(),
                first_with_tag(self.index(), tag, start as int) == first_with_tag(
                    self.index(),
                    tag,
                    i as int,
                ),
            decreases self.fields@.len() - i,
        {
            if self.fields[i].tag == tag {
                #[verifier::truncate]
                let slot = Slot(i as u32);
                return Some((slot, self.value(i)));
            }
            i = i + 1;
        }
        None
    }

    /// The value of the field at position `i`.
    fn value(&self, i: usize) -> (value: &[u8])
        requires
            i < self.index().len(),
        ensures
            value@ == self.value_at(i as int),
    {
        self.slice(self.fields[i])
    }

    /// The bytes `field` spans, given that it is one of this message's.
    fn slice(&self, field: RawField) -> (value: &[u8])
        requires
            exists|i: int| 0 <= i < self.index().len() && self.index()[i] == field,
        ensures
            value@ == self.content().subrange(field.value_start as int, field.value_end as int),
    {
        proof {
            use_type_invariant(self);
        }
        let bytes = bytes_as_slice(&self.bytes);
        slice_subrange(bytes, field.value_start as usize, field.value_end as usize)
    }
}

} // verus!
