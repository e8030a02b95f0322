//! Reading a stream of FIX messages from incrementally fed bytes.
use vstd::prelude::*;
use bytes::{Bytes, BytesMut};
use crate::buffers::{
    bytes_as_slice, bytes_content, bytes_mut_as_slice, bytes_mut_content, bytes_mut_extend,
    bytes_mut_freeze, bytes_mut_new, bytes_mut_split_to,
};
use crate::framing::{
    DEFAULT_MAX_FRAME_SIZE, GarbledReason, Outcome as FramingOutcome, OutcomeView, Scanner,
    spec_scan,
};
use crate::framing_laws::{lemma_frame_shape, lemma_garbled_skip_in_range};
use crate::length_tags;
use crate::message::RawMessage;
use crate::tokenizer::{Tokenizer, lemma_fields_tile, spec_tokenize_fields};

verus! {

/// Reads a stream of FIX messages from incrementally fed bytes.
pub struct MessageStream {
    tokenizer: Tokenizer,
    scanner: Scanner,
    buf: BytesMut,
}

/// One step of reading the stream.
pub enum Outcome {
    /// A complete, checksum-verified message, consumed from the buffer.
    Message(RawMessage),
    /// Bytes that cannot begin a message, consumed from the buffer.
    Garbled { reason: GarbledReason, bytes: Bytes },
    /// The buffer holds no complete message, feed more bytes.
    Incomplete,
}

impl Default for MessageStream {
    fn default() -> (stream: Self)
        ensures
            stream.buffered() == Seq::<u8>::empty(),
            stream.length_tags() == length_tags::standard(),
            stream.max_frame_size() == DEFAULT_MAX_FRAME_SIZE,
    {
        Self::new(Tokenizer::default())
    }
}

impl MessageStream {
    /// The bytes fed and not yet consumed.
    pub closed spec fn buffered(&self) -> Seq<u8> {
        bytes_mut_content(self.buf)
    }

    /// The length tags messages are tokenised with.
    pub closed spec fn length_tags(&self) -> Seq<u32> {
        self.tokenizer.length_tags()
    }

    /// The largest frame the stream accepts: every stream frames with the
    /// default cap.
    pub open spec fn max_frame_size(&self) -> int {
        DEFAULT_MAX_FRAME_SIZE as int
    }

    #[verifier::type_invariant]
    closed spec fn well_formed(&self) -> bool {
        self.scanner.max_frame_size() == DEFAULT_MAX_FRAME_SIZE
    }

    /// Creates a stream that tokenises with `tokenizer`.
    pub fn new(tokenizer: Tokenizer) -> (stream: Self)
        ensures
            stream.buffered() == Seq::<u8>::empty(),
            stream.length_tags() == tokenizer.length_tags(),
            stream.max_frame_size() == DEFAULT_MAX_FRAME_SIZE,
    {
        Self { tokenizer, scanner: Scanner::default(), buf: bytes_mut_new() }
    }

    /// Appends bytes to the stream's buffer.
    pub fn feed(&mut self, bytes: &[u8])
        requires
            old(self).buffered().len() + bytes@.len() <= isize::MAX,
        ensures
            final(self).buffered() == old(self).buffered() + bytes@,
            final(self).length_tags() == old(self).length_tags(),
            final(self).max_frame_size() == old(self).max_frame_size(),
    {
        proof {
            use_type_invariant(&*self);
        }
        let mut buf = bytes_mut_new();
        std::mem::swap(&mut buf, &mut self.buf);
        bytes_mut_extend(&mut buf, bytes);
        self.buf = buf;
    }

    /// How many bytes are buffered: fed and not yet consumed.
    pub fn buffered_len(&self) -> (len: usize)
        ensures
            len == self.buffered().len(),
    {
        bytes_mut_as_slice(&self.buf).len()
    }

    /// Consumes and returns the next outcome at the front of the buffer.
    pub fn next_message(&mut self) -> (out: Outcome)
        ensures
            match spec_scan(old(self).max_frame_size(), old(self).buffered()) {
                OutcomeView::Frame(frame) => {
                    &&& out matches Outcome::Message(message) && message.content() == frame.bytes
                        && message.index() == spec_tokenize_fields(old(self).length_tags(), frame.bytes)
                    &&& final(self).buffered() == old(self).buffered().skip(frame.bytes.len() as int)
                },
                OutcomeView::Garbled { reason, skipped } => {
                    &&& out matches Outcome::Garbled { reason: r, bytes } && r == reason
                        && bytes_content(bytes) == old(self).buffered().take(skipped as int)
                    &&& final(self).buffered() == old(self).buffered().skip(skipped as int)
                },
                OutcomeView::Incomplete => {
                    &&& out is Incomplete
                    &&& final(self).buffered() == old(self).buffered()
                },
            },
            final(self).buffered() == old(self).buffered().skip(
                handed_back(old(self).max_frame_size(), old(self).buffered()).len() as int,
            ),
            final(self).length_tags() == old(self).length_tags(),
            final(self).max_frame_size() == old(self).max_frame_size(),
    {
        proof {
            use_type_invariant(&*self);
        }
        let step = {
            let buf = bytes_mut_as_slice(&self.buf);
            proof {
                lemma_frame_shape(self.scanner.max_frame_size() as int, buf@);
                crate::framing_laws::lemma_garbled_skip_in_range(
                    self.scanner.max_frame_size() as int,
                    buf@,
                );
            }
            match self.scanner.scan(buf) {
                FramingOutcome::Frame(frame) => Step::Frame(frame.bytes.len()),
                FramingOutcome::Incomplete => Step::Incomplete,
                FramingOutcome::Garbled { reason, skipped } => Step::Garbled(reason, skipped),
            }
        };
        let mut buf = bytes_mut_new();
        std::mem::swap(&mut buf, &mut self.buf);
        match step {
            Step::Frame(len) => {
                let bytes = bytes_mut_freeze(bytes_mut_split_to(&mut buf, len));
                self.buf = buf;
                let fields = {
                    let frame = bytes_as_slice(&bytes);
                    proof {
                        lemma_fields_tile(self.tokenizer.length_tags(), frame@, 0, None);
                    }
                    self.tokenizer.tokenize_fields(frame)
                };
                Outcome::Message(RawMessage::new(bytes, fields))
            },
            Step::Incomplete => {
                self.buf = buf;
                Outcome::Incomplete
            },
            Step::Garbled(reason, skipped) => {
                let bytes = bytes_mut_freeze(bytes_mut_split_to(&mut buf, skipped));
                self.buf = buf;
                Outcome::Garbled { reason, bytes }
            },
        }
    }
}

/// What a scan found, by length, once the borrow of the buffer has ended.
enum Step {
    Frame(usize),
    Incomplete,
    Garbled(GarbledReason, usize),
}

/// The bytes one read of a stream hands back, given its frame cap `max`
/// and buffered bytes `buf`: a message's frame, a garble's skipped bytes,
/// or nothing when the buffer is incomplete.
pub open spec fn handed_back(max: int, buf: Seq<u8>) -> Seq<u8> {
    match spec_scan(max, buf) {
        OutcomeView::Frame(frame) => frame.bytes,
        OutcomeView::Garbled { skipped, .. } => buf.take(skipped as int),
        OutcomeView::Incomplete => seq![],
    }
}

/// A call on a stream: feeding it bytes, or reading its next outcome.
pub enum StreamCall {
    Feed(Seq<u8>),
    Next,
}

/// Every byte that `calls` feed, in order.
pub open spec fn fed(calls: Seq<StreamCall>) -> Seq<u8>
    decreases calls.len(),
{
    if calls.len() == 0 {
        seq![]
    } else {
        match calls.last() {
            StreamCall::Feed(bytes) => fed(calls.drop_last()) + bytes,
            StreamCall::Next => fed(calls.drop_last()),
        }
    }
}

/// Making `calls` on a stream with frame cap `max` that has `buf`
/// buffered: every byte handed back, in order, and the bytes left buffered.
pub open spec fn replay(max: int, buf: Seq<u8>, calls: Seq<StreamCall>) -> (Seq<u8>, Seq<u8>)
    decreases calls.len(),
{
    if calls.len() == 0 {
        (seq![], buf)
    } else {
        let (out, left) = replay(max, buf, calls.drop_last());
        match calls.last() {
            StreamCall::Feed(bytes) => (out, left + bytes),
            StreamCall::Next => (
                out + handed_back(max, left),
                left.skip(handed_back(max, left).len() as int),
            ),
        }
    }
}

/// No byte is lost, duplicated or reordered: whatever feeds and reads are
/// interleaved, the bytes handed back followed by those still buffered are
/// exactly the bytes buffered at the start followed by every byte fed.
/// `feed` and `next_message` step a stream's buffered bytes as `replay`
/// does.
pub proof fn lemma_stream_loses_no_byte(max: int, buf: Seq<u8>, calls: Seq<StreamCall>)
    requires
        buf.len() + fed(calls).len() <= usize::MAX,
    ensures
        replay(max, buf, calls).0 + replay(max, buf, calls).1 == buf + fed(calls),
    decreases calls.len(),
{
    if calls.len() > 0 {
        let prefix = calls.drop_last();
        assert(fed(prefix).len() <= fed(calls).len());
        lemma_stream_loses_no_byte(max, buf, prefix);
        let (out, left) = replay(max, buf, prefix);
        match calls.last() {
            StreamCall::Feed(bytes) => {
                assert(out + (left + bytes) =~= (out + left) + bytes);
            },
            StreamCall::Next => {
                assert(left.len() <= usize::MAX) by {
                    assert((out + left).len() == (buf + fed(prefix)).len());
                }
                lemma_frame_shape(max, left);
                lemma_garbled_skip_in_range(max, left);
                let h = handed_back(max, left);
                assert(h == left.take(h.len() as int));
                assert(out + h + left.skip(h.len() as int) =~= out + left);
            },
        }
    }
}

} // verus!
