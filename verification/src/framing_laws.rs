//! What framing promises across calls: garbles always make progress, frames
//! are self-delimiting prefixes of the buffer, a decision once made does not
//! change as more bytes arrive, and so delivering a stream in chunks yields
//! exactly the frames that scanning it whole does.
use vstd::prelude::*;
use crate::bytes_spec::{
    SOH, all_digits, byte_sum, decimal_value, find_byte, lemma_find_byte, lemma_find_byte_agree,
};
use crate::framing::{
    ASCII_8, ASCII_9, ASCII_EQUALS, ASCII_F, ASCII_I, ASCII_X, begin_string_view, checksum_tag,
    msg_type_tag,
    FrameView, GarbledReason, HaltView, OutcomeView, agrees_with_begin, begin_prefix,
    first_agreeing_from, is_begin_prefix, post_structural, resync_skip, spec_frame_len,
    spec_parse_begin_string, spec_parse_body_length, spec_parse_msg_type, spec_scan,
    spec_try_scan, spec_verify_checksum, spec_verify_trailer_start, starts_with_begin,
    structural,
};

verus! {

// ---------------------------------------------------------------------------
// Resynchronisation
// ---------------------------------------------------------------------------

/// `first_agreeing_from(buf, i)` is the least offset at or after `i` from
/// which `buf` agrees with `8=FIX`.
proof fn lemma_first_agreeing_from(buf: Seq<u8>, i: int)
    requires
        0 <= i <= buf.len(),
    ensures
        i <= first_agreeing_from(buf, i) <= buf.len(),
        agrees_with_begin(buf.skip(first_agreeing_from(buf, i))),
        forall|j: int|
            i <= j < first_agreeing_from(buf, i) ==> !agrees_with_begin(#[trigger] buf.skip(j)),
    decreases buf.len() - i,
{
    if i < buf.len() && !agrees_with_begin(buf.skip(i)) {
        lemma_first_agreeing_from(buf, i + 1);
    }
    if i >= buf.len() {
        assert(buf.skip(i).len() == 0);
    }
}

/// The resync distance is the least offset after 0 from which the buffer
/// agrees with `8=FIX`; it always makes progress and stays in the buffer.
pub proof fn lemma_resync_skip(buf: Seq<u8>)
    requires
        buf.len() >= 1,
    ensures
        1 <= resync_skip(buf) <= buf.len(),
        agrees_with_begin(buf.skip(resync_skip(buf))),
        forall|j: int| 1 <= j < resync_skip(buf) ==> !agrees_with_begin(#[trigger] buf.skip(j)),
{
    lemma_first_agreeing_from(buf, 1);
}

/// Agreeing with `8=FIX` survives truncation.
proof fn lemma_agrees_truncate(x: Seq<u8>, y: Seq<u8>)
    requires
        agrees_with_begin(y),
        x.len() <= y.len(),
        forall|i: int| 0 <= i < x.len() ==> x[i] == y[i],
    ensures
        agrees_with_begin(x),
{
    assert forall|j: int| 0 <= j < x.len() && j < 5 implies x[j] == #[trigger] begin_prefix()[j] by {
        assert(x[j] == y[j]);
    }
}

/// More bytes never shorten the resync distance.
proof fn lemma_resync_extend(b: Seq<u8>, c: Seq<u8>)
    requires
        b.len() >= 1,
        b.len() <= c.len(),
        forall|i: int| 0 <= i < b.len() ==> b[i] == c[i],
    ensures
        resync_skip(b) <= resync_skip(c),
{
    lemma_resync_skip(b);
    lemma_resync_skip(c);
    let s = resync_skip(b);
    let t = resync_skip(c);
    if t < s {
        lemma_agrees_truncate(b.skip(t), c.skip(t));
        assert(!agrees_with_begin(b.skip(t)));
    }
}

// ---------------------------------------------------------------------------
// Ranges of the intermediate offsets
// ---------------------------------------------------------------------------

/// BeginString's SOH sits after `8=FIX`, inside the buffer.
proof fn lemma_begin_string_range(buf: Seq<u8>)
    requires
        starts_with_begin(buf),
    ensures
        spec_parse_begin_string(buf) matches Ok((_, next)) ==> 6 <= next <= buf.len(),
{
    let search_end = if buf.len() < 17 { buf.len() as int } else { 17 };
    let w = buf.subrange(2, search_end);
    lemma_find_byte(w, SOH);
    assert(begin_prefix()[2] != SOH && begin_prefix()[3] != SOH && begin_prefix()[4] != SOH);
    assert(w[0] == buf[2] && w[1] == buf[3] && w[2] == buf[4]);
}

/// BodyLength's SOH sits inside the buffer, at least three bytes on.
proof fn lemma_body_length_range(buf: Seq<u8>, start: int)
    requires
        0 <= start <= buf.len(),
    ensures
        spec_parse_body_length(buf, start) matches Ok((body_length, body_start)) ==> start + 3
            <= body_start <= buf.len() && 0 <= body_length,
{
    if buf.len() - start >= 2 {
        let ds = start + 2;
        let search_end = if buf.len() - ds < 11 { buf.len() as int } else { ds + 11 };
        lemma_find_byte(buf.subrange(ds, search_end), SOH);
    }
}

// ---------------------------------------------------------------------------
// Progress and the shape of a frame
// ---------------------------------------------------------------------------

/// The reasons found once a frame's extent is trusted (checksum-verified):
/// their skip is the whole frame, not a resync.
pub open spec fn is_post_structural(reason: GarbledReason) -> bool {
    reason == GarbledReason::MalformedChecksum || reason == GarbledReason::ChecksumMismatch
        || reason == GarbledReason::MissingMsgType
}

/// A scan that finds no frame either waits for more bytes or skips at least
/// one byte and at most the whole buffer, so a caller that advances by the
/// skip never stalls and never runs past its buffer.
pub proof fn lemma_garbled_skip_in_range(max: int, buf: Seq<u8>)
    ensures
        spec_scan(max, buf) matches OutcomeView::Garbled { skipped, .. } ==> 1 <= skipped
            <= buf.len(),
{
    lemma_try_scan_shape(max, buf);
}

/// A frame is a prefix of the buffer: it starts with `8=FIX`, ends on SOH, is
/// longer than its BodyLength, and is no longer than the scanner's cap.
pub proof fn lemma_frame_shape(max: int, buf: Seq<u8>)
    requires
        buf.len() <= usize::MAX,
    ensures
        spec_scan(max, buf) matches OutcomeView::Frame(frame) ==> {
            &&& 0 < frame.bytes.len() <= buf.len()
            &&& frame.bytes == buf.take(frame.bytes.len() as int)
            &&& starts_with_begin(frame.bytes)
            &&& frame.bytes.last() == SOH
            &&& frame.body_length < frame.bytes.len()
            &&& frame.bytes.len() <= max
        },
{
    lemma_try_scan_shape(max, buf);
}

/// The facts behind the two laws above, on the scan's inner result.
proof fn lemma_try_scan_shape(max: int, buf: Seq<u8>)
    ensures
        match spec_try_scan(max, buf) {
            Ok(frame) => {
                &&& 0 < frame.bytes.len() <= buf.len()
                &&& frame.bytes == buf.take(frame.bytes.len() as int)
                &&& starts_with_begin(frame.bytes)
                &&& frame.bytes.last() == SOH
                &&& frame.body_length + 7 < frame.bytes.len()
                &&& (frame.bytes.len() <= usize::MAX ==> frame.bytes.len() <= max)
            },
            Err(HaltView::Garbled { skipped, .. }) => 1 <= skipped <= buf.len(),
            Err(HaltView::Incomplete) => true,
        },
{
    reveal(spec_try_scan);
    if buf.len() >= 1 {
        lemma_resync_skip(buf);
    }
    if !starts_with_begin(buf) {
        if !is_begin_prefix(buf) {
            assert(buf.len() >= 1) by {
                if buf.len() == 0 {
                    assert(is_begin_prefix(buf));
                }
            }
        }
    } else {
        lemma_begin_string_range(buf);
        match spec_parse_begin_string(buf) {
            Err(_) => {},
            Ok((begin_string, bls)) => {
                lemma_body_length_range(buf, bls);
                match spec_parse_body_length(buf, bls) {
                Err(_) => {},
                Ok((body_length, body_start)) => match spec_frame_len(
                    buf,
                    body_start,
                    body_length,
                    max,
                ) {
                    Err(_) => {},
                    Ok(frame_len) => {
                        let frame = buf.take(frame_len);
                        let cs = body_start + body_length;
                        match spec_verify_trailer_start(buf, cs) {
                            Err(_) => {},
                            Ok(_) => match spec_verify_checksum(frame, cs) {
                                Err(_) => {},
                                Ok(_) => match spec_parse_msg_type(frame, body_start, body_length) {
                                    Err(_) => {},
                                    Ok(_) => {
                                        lemma_agrees_truncate(frame, buf);
                                        assert(frame.last() == frame[cs + 6]);
                                    },
                                },
                            },
                        }
                    },
                },
            }},
        }
    }
}

/// The grammar of a frame: `8=`, a BeginString value `v` that opens with
/// `FIX`, holds no SOH and has at most 14 bytes, SOH; `9=`, one to ten
/// digits whose value is the body's length, SOH; the body, which opens with
/// `35=`, ends on SOH, and holds the MsgType value up to its first SOH after
/// `35=`; `10=`, three digits whose value is the sum of every byte before
/// `10=` modulo 256, SOH.
pub open spec fn frame_form(
    frame: FrameView,
    v: Seq<u8>,
    digits: Seq<u8>,
    body: Seq<u8>,
    sum: Seq<u8>,
) -> bool {
    &&& frame.bytes == seq![ASCII_8, ASCII_EQUALS] + v + seq![SOH, ASCII_9, ASCII_EQUALS] + digits
        + seq![SOH] + body + checksum_tag() + sum + seq![SOH]
    &&& 3 <= v.len() <= 14
    &&& v.take(3) == seq![ASCII_F, ASCII_I, ASCII_X]
    &&& find_byte(v, SOH) is None
    &&& frame.begin_string == begin_string_view(v)
    &&& 1 <= digits.len() <= 10
    &&& all_digits(digits)
    &&& decimal_value(digits) == body.len() == frame.body_length
    &&& body.len() >= 3
    &&& body.take(3) == msg_type_tag()
    &&& body.last() == SOH
    &&& find_byte(body.skip(3), SOH) == Some(frame.msg_type.len() as int)
    &&& frame.msg_type == body.skip(3).take(frame.msg_type.len() as int)
    &&& sum.len() == 3
    &&& all_digits(sum)
    &&& decimal_value(sum) == byte_sum(frame.bytes.take(frame.bytes.len() - 7)) % 256
}

/// Where the fields of an accepted frame sit: BeginString's SOH at
/// `rel + 2`, BodyLength's digits from `rel + 5` for `rel2` bytes, the body
/// after their SOH, and the trailer after the body.
proof fn lemma_frame_positions(max: int, buf: Seq<u8>) -> (r: (int, int))
    requires
        spec_scan(max, buf) is Frame,
    ensures
        ({
            let f = spec_scan(max, buf)->Frame_0;
            let (rel, rel2) = r;
            let ds = rel + 5;
            let body_start = ds + rel2 + 1;
            let cs = body_start + f.body_length;
            &&& starts_with_begin(buf)
            &&& 1 <= rel <= 14
            &&& buf[rel + 2] == SOH
            &&& find_byte(buf.subrange(2, rel + 2), SOH) is None
            &&& f.begin_string == begin_string_view(buf.subrange(2, rel + 2))
            &&& buf[rel + 3] == ASCII_9 && buf[rel + 4] == ASCII_EQUALS
            &&& 1 <= rel2 <= 10
            &&& buf[ds + rel2] == SOH
            &&& all_digits(buf.subrange(ds, ds + rel2))
            &&& decimal_value(buf.subrange(ds, ds + rel2)) == f.body_length
            &&& cs + 7 <= buf.len()
            &&& f.bytes == buf.take(cs + 7)
            &&& buf[cs - 1] == SOH
            &&& buf.subrange(cs, cs + 3) == checksum_tag()
            &&& spec_verify_checksum(f.bytes, cs) is Ok
            &&& spec_parse_msg_type(f.bytes, body_start, f.body_length as int) == Ok::<
                Seq<u8>,
                HaltView,
            >(f.msg_type)
        }),
{
    reveal(spec_try_scan);
    lemma_try_scan_shape(max, buf);
    let se = if buf.len() < 17 { buf.len() as int } else { 17 };
    let w = buf.subrange(2, se);
    lemma_find_byte(w, SOH);
    let rel = find_byte(w, SOH)->0;
    let bls = rel + 3;
    let ds = bls + 2;
    let se2 = if buf.len() - ds < 11 { buf.len() as int } else { ds + 11 };
    let w2 = buf.subrange(ds, se2);
    lemma_find_byte(w2, SOH);
    let rel2 = find_byte(w2, SOH)->0;
    assert(buf[rel + 2] == w[rel]);
    assert(buf[ds + rel2] == w2[rel2]);
    let v = buf.subrange(2, rel + 2);
    lemma_find_byte(v, SOH);
    if find_byte(v, SOH) is Some {
        let j = find_byte(v, SOH)->0;
        assert(w[j] == v[j]);
    }
    assert(buf.subrange(ds, ds + rel2) =~= w2.take(rel2));
    assert(v =~= w.take(rel));
    (rel, rel2)
}

/// Every frame a scan accepts has the grammar of [`frame_form`]: the parts
/// returned are its BeginString value, BodyLength digits, body and
/// CheckSum digits.
#[verifier::rlimit(40)]
pub proof fn lemma_frame_grammar(max: int, buf: Seq<u8>) -> (parts: (
    Seq<u8>,
    Seq<u8>,
    Seq<u8>,
    Seq<u8>,
))
    requires
        spec_scan(max, buf) is Frame,
    ensures
        frame_form(spec_scan(max, buf)->Frame_0, parts.0, parts.1, parts.2, parts.3),
{
    let f = spec_scan(max, buf)->Frame_0;
    let (rel, rel2) = lemma_frame_positions(max, buf);
    let ds = rel + 5;
    let body_start = ds + rel2 + 1;
    let body_length = f.body_length as int;
    let cs = body_start + body_length;
    let frame = f.bytes;
    let v = frame.subrange(2, rel + 2);
    let digits = frame.subrange(ds, ds + rel2);
    let body = frame.subrange(body_start, cs);
    let sum = frame.subrange(cs + 3, cs + 6);
    assert(v =~= buf.subrange(2, rel + 2));
    assert(digits =~= buf.subrange(ds, ds + rel2));
    assert(buf[2] == begin_prefix()[2] && buf[3] == begin_prefix()[3] && buf[4]
        == begin_prefix()[4]);
    assert(rel >= 3) by {
        assert(v[0] == buf[2] && buf[2] != SOH);
        if rel < 3 {
            assert(buf[rel + 2] != SOH);
        }
    }
    assert(v.take(3) =~= seq![ASCII_F, ASCII_I, ASCII_X]) by {
        assert(v[0] == buf[2] && v[1] == buf[3] && v[2] == buf[4]);
    }
    assert(body =~= frame.subrange(body_start, body_start + body_length));
    lemma_find_byte(body.skip(3), SOH);
    assert(body.last() == buf[cs - 1]);
    assert(frame.subrange(cs, cs + 3) =~= buf.subrange(cs, cs + 3));
    assert(frame.subrange(0, 2) =~= seq![ASCII_8, ASCII_EQUALS]) by {
        assert(buf[0] == begin_prefix()[0] && buf[1] == begin_prefix()[1]);
    }
    assert(frame.subrange(rel + 2, ds) =~= seq![SOH, ASCII_9, ASCII_EQUALS]);
    assert(frame.subrange(ds + rel2, body_start) =~= seq![SOH]);
    assert(frame.subrange(cs + 6, cs + 7) =~= seq![SOH]);
    assert(frame.take(frame.len() - 7) =~= frame.take(cs));
    assert(frame =~= frame.subrange(0, 2) + v + frame.subrange(rel + 2, ds) + digits
        + frame.subrange(ds + rel2, body_start) + body + frame.subrange(cs, cs + 3) + sum
        + frame.subrange(cs + 6, cs + 7));
    (v, digits, body, sum)
}

/// Where the parts of a frame of [`frame_form`] sit in its bytes.
proof fn lemma_frame_layout(b: Seq<u8>, v: Seq<u8>, digits: Seq<u8>, body: Seq<u8>, sum: Seq<u8>)
    requires
        b == seq![ASCII_8, ASCII_EQUALS] + v + seq![SOH, ASCII_9, ASCII_EQUALS] + digits + seq![SOH]
            + body + checksum_tag() + sum + seq![SOH],
        sum.len() == 3,
    ensures
        ({
            let lv = v.len() as int;
            let ld = digits.len() as int;
            let cs = 6 + lv + ld + body.len();
            &&& b.len() == cs + 7
            &&& b[0] == ASCII_8 && b[1] == ASCII_EQUALS
            &&& b.subrange(2, 2 + lv) == v
            &&& b[2 + lv] == SOH && b[3 + lv] == ASCII_9 && b[4 + lv] == ASCII_EQUALS
            &&& b.subrange(5 + lv, 5 + lv + ld) == digits
            &&& b[5 + lv + ld] == SOH
            &&& b.subrange(6 + lv + ld, cs) == body
            &&& b.subrange(cs, cs + 3) == checksum_tag()
            &&& b.subrange(cs + 3, cs + 6) == sum
            &&& b[cs + 6] == SOH
        }),
{
    let lv = v.len() as int;
    let ld = digits.len() as int;
    let cs = 6 + lv + ld + body.len();
    let p0 = seq![ASCII_8, ASCII_EQUALS];
    let a1 = p0 + v;
    let a2 = a1 + seq![SOH, ASCII_9, ASCII_EQUALS];
    let a3 = a2 + digits;
    let a4 = a3 + seq![SOH];
    let a5 = a4 + body;
    let a6 = a5 + checksum_tag();
    let a7 = a6 + sum;
    assert(b == a7 + seq![SOH]);
    assert(b.subrange(2, 2 + lv) =~= v) by {
        assert forall|i: int| 0 <= i < lv implies b[2 + i] == v[i] by {
            assert(b[2 + i] == a7[2 + i] && a7[2 + i] == a6[2 + i] && a6[2 + i] == a5[2 + i]
                && a5[2 + i] == a4[2 + i] && a4[2 + i] == a3[2 + i] && a3[2 + i] == a2[2 + i]
                && a2[2 + i] == a1[2 + i]);
        }
    }
    assert(b.subrange(5 + lv, 5 + lv + ld) =~= digits) by {
        assert forall|i: int| 0 <= i < ld implies b[5 + lv + i] == digits[i] by {
            let k = 5 + lv + i;
            assert(b[k] == a7[k] && a7[k] == a6[k] && a6[k] == a5[k] && a5[k] == a4[k] && a4[k]
                == a3[k]);
        }
    }
    assert(b.subrange(6 + lv + ld, cs) =~= body) by {
        assert forall|i: int| 0 <= i < body.len() implies b[6 + lv + ld + i] == body[i] by {
            let k = 6 + lv + ld + i;
            assert(b[k] == a7[k] && a7[k] == a6[k] && a6[k] == a5[k]);
        }
    }
    assert(b.subrange(cs, cs + 3) =~= checksum_tag()) by {
        assert forall|i: int| 0 <= i < 3 implies b[cs + i] == checksum_tag()[i] by {
            assert(b[cs + i] == a7[cs + i] && a7[cs + i] == a6[cs + i]);
        }
    }
    assert(b.subrange(cs + 3, cs + 6) =~= sum) by {
        assert forall|i: int| 0 <= i < 3 implies b[cs + 3 + i] == sum[i] by {
            assert(b[cs + 3 + i] == a7[cs + 3 + i]);
        }
    }
    assert(b[0] == a7[0] && a7[0] == a6[0] && a6[0] == a5[0] && a5[0] == a4[0] && a4[0] == a3[0]
        && a3[0] == a2[0] && a2[0] == a1[0]);
    assert(b[1] == a7[1] && a7[1] == a6[1] && a6[1] == a5[1] && a5[1] == a4[1] && a4[1] == a3[1]
        && a3[1] == a2[1] && a2[1] == a1[1]);
    let k = 2 + lv;
    assert(b[k] == a7[k] && a7[k] == a6[k] && a6[k] == a5[k] && a5[k] == a4[k] && a4[k] == a3[k]
        && a3[k] == a2[k]);
    assert(b[k + 1] == a7[k + 1] && a7[k + 1] == a6[k + 1] && a6[k + 1] == a5[k + 1] && a5[k + 1]
        == a4[k + 1] && a4[k + 1] == a3[k + 1] && a3[k + 1] == a2[k + 1]);
    assert(b[k + 2] == a7[k + 2] && a7[k + 2] == a6[k + 2] && a6[k + 2] == a5[k + 2] && a5[k + 2]
        == a4[k + 2] && a4[k + 2] == a3[k + 2] && a3[k + 2] == a2[k + 2]);
    let m = 5 + lv + ld;
    assert(b[m] == a7[m] && a7[m] == a6[m] && a6[m] == a5[m] && a5[m] == a4[m]);
}

/// Every frame of the grammar is scanned as itself: a buffer that starts
/// with the bytes of a frame of [`frame_form`] (`8=FIX..`, BodyLength, a
/// body opening with `35=` and any MsgType value of any length, a correct
/// CheckSum) that fits the cap scans as exactly that frame, whatever
/// follows it.
#[verifier::rlimit(60)]
pub proof fn lemma_frame_grammar_complete(
    max: int,
    buf: Seq<u8>,
    frame: FrameView,
    v: Seq<u8>,
    digits: Seq<u8>,
    body: Seq<u8>,
    sum: Seq<u8>,
)
    requires
        frame_form(frame, v, digits, body, sum),
        frame.bytes.len() <= max,
        frame.bytes.len() <= buf.len() <= usize::MAX,
        buf.take(frame.bytes.len() as int) == frame.bytes,
    ensures
        spec_scan(max, buf) == OutcomeView::Frame(frame),
{
    reveal(spec_try_scan);
    let b = frame.bytes;
    let n = b.len() as int;
    let lv = v.len() as int;
    let ld = digits.len() as int;
    let lb = body.len() as int;
    let bs = 6 + lv + ld;
    let cs = bs + lb;
    lemma_frame_layout(b, v, digits, body, sum);
    assert forall|i: int| 0 <= i < n implies buf[i] == #[trigger] b[i] by {
        assert(buf.take(n)[i] == buf[i]);
    }
    // `8=FIX`
    assert(b[2] == v[0] && b[3] == v[1] && b[4] == v[2]) by {
        assert(b.subrange(2, 2 + lv)[0] == b[2]);
        assert(b.subrange(2, 2 + lv)[1] == b[3]);
        assert(b.subrange(2, 2 + lv)[2] == b[4]);
        assert(v.take(3)[0] == v[0] && v.take(3)[1] == v[1] && v.take(3)[2] == v[2]);
    }
    assert(starts_with_begin(buf));
    // BeginString
    let se = if buf.len() < 17 { buf.len() as int } else { 17 };
    let w = buf.subrange(2, se);
    lemma_find_byte(v, SOH);
    assert forall|j: int| 0 <= j < lv implies w[j] != SOH by {
        assert(w[j] == buf[2 + j] && b[2 + j] == b.subrange(2, 2 + lv)[j]);
    }
    assert(w[lv] == b[2 + lv]);
    crate::bytes_spec::lemma_find_byte_unique(w, SOH, Some(lv));
    assert(buf.subrange(2, lv + 2) =~= v) by {
        assert forall|j: int| 0 <= j < lv implies buf.subrange(2, lv + 2)[j] == v[j] by {
            assert(b[2 + j] == b.subrange(2, 2 + lv)[j]);
        }
    }
    // BodyLength
    let ds = lv + 5;
    let se2 = if buf.len() - ds < 11 { buf.len() as int } else { ds + 11 };
    let w2 = buf.subrange(ds, se2);
    assert forall|j: int| 0 <= j < ld implies w2[j] != SOH by {
        assert(w2[j] == buf[ds + j] && b[ds + j] == b.subrange(ds, ds + ld)[j]);
        assert(crate::bytes_spec::is_digit(digits[j]));
    }
    assert(w2[ld] == b[ds + ld]);
    crate::bytes_spec::lemma_find_byte_unique(w2, SOH, Some(ld));
    assert(buf.subrange(ds, ds + ld) =~= digits) by {
        assert forall|j: int| 0 <= j < ld implies buf.subrange(ds, ds + ld)[j] == digits[j] by {
            assert(b[ds + j] == b.subrange(ds, ds + ld)[j]);
        }
    }
    assert(spec_parse_body_length(buf, lv + 3) == Ok::<(int, int), HaltView>((lb, bs)));
    // Frame length, trailer, checksum.
    assert(buf.take(n) == b);
    assert(buf[cs - 1] == SOH) by {
        assert(b[cs - 1] == b.subrange(bs, cs)[lb - 1]);
    }
    assert(buf.subrange(cs, cs + 3) =~= checksum_tag()) by {
        assert forall|j: int| 0 <= j < 3 implies buf.subrange(cs, cs + 3)[j] == checksum_tag()[j] by {
            assert(b[cs + j] == b.subrange(cs, cs + 3)[j]);
        }
    }
    assert(b.take(n - 7) == b.take(cs));
    // MsgType
    assert(b.subrange(bs, bs + lb) == body);
}

// ---------------------------------------------------------------------------
// Decisions depend only on the bytes they read
// ---------------------------------------------------------------------------

/// `b` and `c` hold the same bytes before offset `k`, which both reach.
pub open spec fn agree_upto(b: Seq<u8>, c: Seq<u8>, k: int) -> bool {
    &&& 0 <= k <= b.len()
    &&& k <= c.len()
    &&& forall|i: int| 0 <= i < k ==> b[i] == c[i]
}

/// The scan of `b` is settled by its first `k` bytes: it found a frame of at
/// most `k` bytes, or it found a garble and `k` covers all of `b`.
pub open spec fn decided_within(max: int, b: Seq<u8>, k: int) -> bool {
    match spec_try_scan(max, b) {
        Ok(frame) => frame.bytes.len() <= k,
        Err(HaltView::Garbled { .. }) => k == b.len(),
        Err(HaltView::Incomplete) => false,
    }
}

/// The garble `c` reports where `b` reported `reason` and `skipped`, when `c`
/// agrees with `b`: a post-structural skip is the frame, unchanged; a
/// structural skip resyncs over `c`.
pub open spec fn carried_garble(reason: GarbledReason, skipped: nat, c: Seq<u8>) -> HaltView {
    if is_post_structural(reason) {
        HaltView::Garbled { reason, skipped }
    } else {
        structural(reason, c)
    }
}

proof fn lemma_begin_string_agree(b: Seq<u8>, c: Seq<u8>, k: int)
    requires
        starts_with_begin(b),
        starts_with_begin(c),
        agree_upto(b, c, k),
        match spec_parse_begin_string(b) {
            Ok((_, next)) => next <= k,
            Err(HaltView::Garbled { .. }) => k == b.len(),
            Err(HaltView::Incomplete) => true,
        },
    ensures
        match spec_parse_begin_string(b) {
            Ok(parsed) => spec_parse_begin_string(c) == Ok::<_, HaltView>(parsed),
            Err(HaltView::Garbled { reason, .. }) => spec_parse_begin_string(c) == Err::<
                (crate::framing::BeginStringView, int),
                HaltView,
            >(structural(reason, c)),
            Err(HaltView::Incomplete) => true,
        },
{
    let se_b = if b.len() < 17 { b.len() as int } else { 17 };
    let se_c = if c.len() < 17 { c.len() as int } else { 17 };
    let wb = b.subrange(2, se_b);
    let wc = c.subrange(2, se_c);
    lemma_find_byte(wb, SOH);
    match find_byte(wb, SOH) {
        Some(rel) => {
            assert forall|j: int| 0 <= j <= rel implies wb[j] == wc[j] by {
                assert(wb[j] == b[j + 2]);
                assert(wc[j] == c[j + 2]);
            }
            lemma_find_byte_agree(wb, wc, SOH);
            assert(b.subrange(2, rel + 2) =~= c.subrange(2, rel + 2));
        },
        None => {
            if b.len() > 16 {
                assert(wb =~= wc);
            }
        },
    }
}

proof fn lemma_body_length_agree(b: Seq<u8>, c: Seq<u8>, start: int, k: int)
    requires
        0 <= start <= k,
        agree_upto(b, c, k),
        starts_with_begin(b),
        match spec_parse_body_length(b, start) {
            Ok((_, body_start)) => body_start <= k,
            Err(HaltView::Garbled { .. }) => k == b.len(),
            Err(HaltView::Incomplete) => true,
        },
    ensures
        match spec_parse_body_length(b, start) {
            Ok(parsed) => spec_parse_body_length(c, start) == Ok::<_, HaltView>(parsed),
            Err(HaltView::Garbled { reason, .. }) => spec_parse_body_length(c, start) == Err::<
                (int, int),
                HaltView,
            >(structural(reason, c)),
            Err(HaltView::Incomplete) => true,
        },
{
    lemma_body_length_range(b, start);
    if b.len() - start >= 2 {
        let ds = start + 2;
        let se_b = if b.len() - ds < 11 { b.len() as int } else { ds + 11 };
        let se_c = if c.len() - ds < 11 { c.len() as int } else { ds + 11 };
        let wb = b.subrange(ds, se_b);
        lemma_find_byte(wb, SOH);
        match find_byte(wb, SOH) {
            Some(rel) => {
                if b[start] == 0x39 && b[start + 1] == 0x3d {
                    let wc = c.subrange(ds, se_c);
                    assert forall|j: int| 0 <= j <= rel implies wb[j] == wc[j] by {
                        assert(wb[j] == b[j + ds]);
                        assert(wc[j] == c[j + ds]);
                    }
                    lemma_find_byte_agree(wb, wc, SOH);
                    assert(b.subrange(ds, ds + rel) =~= c.subrange(ds, ds + rel));
                }
            },
            None => {
                if b.len() > ds + 10 {
                    assert(wb =~= c.subrange(ds, se_c));
                }
            },
        }
    }
}

proof fn lemma_frame_len_agree(b: Seq<u8>, c: Seq<u8>, body_start: int, body_length: int, max: int, k: int)
    requires
        agree_upto(b, c, k),
        match spec_frame_len(b, body_start, body_length, max) {
            Ok(len) => len <= k,
            Err(HaltView::Garbled { .. }) => k == b.len(),
            Err(HaltView::Incomplete) => true,
        },
    ensures
        match spec_frame_len(b, body_start, body_length, max) {
            Ok(len) => spec_frame_len(c, body_start, body_length, max) == Ok::<int, HaltView>(len),
            Err(HaltView::Garbled { reason, .. }) => spec_frame_len(c, body_start, body_length, max)
                == Err::<int, HaltView>(structural(reason, c)),
            Err(HaltView::Incomplete) => true,
        },
{
}

/// A scan settled by the first `k` bytes of `b` comes out the same on any
/// `c` holding those bytes: the same frame, or the same garble (with a
/// structural skip resynced over `c`).
pub proof fn lemma_scan_agree(max: int, b: Seq<u8>, c: Seq<u8>, k: int)
    requires
        agree_upto(b, c, k),
        decided_within(max, b, k),
    ensures
        match spec_try_scan(max, b) {
            Ok(frame) => spec_try_scan(max, c) == Ok::<FrameView, HaltView>(frame),
            Err(HaltView::Garbled { reason, skipped }) => spec_try_scan(max, c) == Err::<
                FrameView,
                HaltView,
            >(carried_garble(reason, skipped, c)),
            Err(HaltView::Incomplete) => true,
        },
{
    reveal(spec_try_scan);
    lemma_try_scan_shape(max, b);
    if !starts_with_begin(b) {
        if !is_begin_prefix(b) {
            // A disagreement with `8=FIX` within `b` is one within `c`.
            let j = choose|j: int| 0 <= j < b.len() && j < 5 && b[j] != #[trigger] begin_prefix()[j];
            assert(c[j] == b[j]);
            assert(!agrees_with_begin(c));
        }
    } else {
        // `b` starts with `8=FIX` and `k` covers at least those five bytes.
        assert(k >= 5);
        assert(starts_with_begin(c)) by {
            assert forall|j: int| 0 <= j < c.len() && j < 5 implies c[j] == #[trigger] begin_prefix()[j] by {
                assert(b[j] == c[j]);
            }
        }
        lemma_begin_string_range(b);
        match spec_parse_begin_string(b) {
            Err(_) => {
                lemma_begin_string_agree(b, c, k);
            },
            Ok((begin_string, bls)) => {
                lemma_body_length_range(b, bls);
                if let Ok((body_length, body_start)) = spec_parse_body_length(b, bls) {
                    assert(bls <= body_start);
                    if let Ok(frame_len) = spec_frame_len(b, body_start, body_length, max) {
                        assert(body_start <= frame_len);
                    }
                }
                assert(bls <= k);
                lemma_begin_string_agree(b, c, k);
                lemma_body_length_agree(b, c, bls, k);
                match spec_parse_body_length(b, bls) {
                    Err(_) => {},
                    Ok((body_length, body_start)) => {
                        lemma_frame_len_agree(b, c, body_start, body_length, max, k);
                        match spec_frame_len(b, body_start, body_length, max) {
                            Err(_) => {},
                            Ok(frame_len) => {
                                let cs = body_start + body_length;
                                assert(b.take(frame_len) =~= c.take(frame_len));
                                assert(b.subrange(cs, cs + 3) =~= c.subrange(cs, cs + 3));
                                assert(b[cs - 1] == c[cs - 1]);
                            },
                        }
                    },
                }
            },
        }
    }
}

// ---------------------------------------------------------------------------
// Laws of a single scan across buffers
// ---------------------------------------------------------------------------

/// A frame is self-delimiting: scanning any buffer that begins with the
/// frame's bytes, its own bytes included, yields the same frame.
pub proof fn lemma_frame_rescans_as_itself(max: int, buf: Seq<u8>, other: Seq<u8>)
    requires
        spec_scan(max, buf) is Frame,
        spec_scan(max, buf)->Frame_0.bytes.len() <= other.len(),
        other.take(spec_scan(max, buf)->Frame_0.bytes.len() as int) == spec_scan(
            max,
            buf,
        )->Frame_0.bytes,
    ensures
        spec_scan(max, other) == spec_scan(max, buf),
{
    lemma_try_scan_shape(max, buf);
    let frame = spec_try_scan(max, buf)->Ok_0;
    let k = frame.bytes.len() as int;
    assert forall|i: int| 0 <= i < k implies buf[i] == other[i] by {
        assert(buf[i] == frame.bytes[i]);
        assert(other[i] == other.take(k)[i]);
    }
    lemma_scan_agree(max, buf, other, k);
}

/// Every strict prefix of a frame is incomplete: a frame is never reported,
/// nor a garble, before all of its bytes have arrived.
pub proof fn lemma_frame_prefixes_incomplete(max: int, buf: Seq<u8>, n: int)
    requires
        spec_scan(max, buf) is Frame,
        0 <= n < spec_scan(max, buf)->Frame_0.bytes.len(),
    ensures
        spec_scan(max, buf.take(n)) == OutcomeView::Incomplete,
{
    lemma_try_scan_shape(max, buf);
    let prefix = buf.take(n);
    lemma_try_scan_shape(max, prefix);
    match spec_try_scan(max, prefix) {
        Ok(frame) => {
            lemma_scan_agree(max, prefix, buf, frame.bytes.len() as int);
        },
        Err(HaltView::Garbled { .. }) => {
            lemma_scan_agree(max, prefix, buf, n);
        },
        Err(HaltView::Incomplete) => {},
    }
}

/// More bytes never change a decision: a frame stays the same frame, and a
/// garble keeps its reason, with a skip that is unchanged once the frame's
/// extent is trusted and otherwise never shorter.
pub proof fn lemma_decision_survives_more_bytes(max: int, buf: Seq<u8>, more: Seq<u8>)
    ensures
        match spec_scan(max, buf) {
            OutcomeView::Frame(frame) => spec_scan(max, buf + more) == OutcomeView::Frame(frame),
            OutcomeView::Garbled { reason, skipped } => spec_scan(max, buf + more) matches OutcomeView::Garbled {
                reason: reason2,
                skipped: skipped2,
            } && reason2 == reason && skipped <= skipped2 && (is_post_structural(reason) ==> skipped2
                == skipped),
            OutcomeView::Incomplete => true,
        },
{
    lemma_try_scan_shape(max, buf);
    let longer = buf + more;
    match spec_try_scan(max, buf) {
        Ok(frame) => {
            lemma_scan_agree(max, buf, longer, frame.bytes.len() as int);
        },
        Err(HaltView::Garbled { reason, skipped }) => {
            lemma_scan_agree(max, buf, buf, buf.len() as int);
            lemma_scan_agree(max, buf, longer, buf.len() as int);
            if !is_post_structural(reason) {
                lemma_resync_skip(buf);
                assert(skipped == resync_skip(buf));
                lemma_resync_extend(buf, longer);
                assert(spec_try_scan(max, longer) == Err::<FrameView, HaltView>(
                    structural(reason, longer),
                ));
            }
        },
        Err(HaltView::Incomplete) => {},
    }
}

// ---------------------------------------------------------------------------
// Driving a stream
// ---------------------------------------------------------------------------

/// Scanning `buf` over and over, advancing past each frame and each garble,
/// until it is incomplete: the frames found, in order, and the bytes left
/// waiting for more input.
pub open spec fn drain(max: int, buf: Seq<u8>) -> (Seq<Seq<u8>>, Seq<u8>)
    decreases buf.len(),
{
    match spec_scan(max, buf) {
        OutcomeView::Frame(frame) => if 0 < frame.bytes.len() <= buf.len() {
            let (frames, rest) = drain(max, buf.skip(frame.bytes.len() as int));
            (seq![frame.bytes] + frames, rest)
        } else {
            (seq![], buf)
        },
        OutcomeView::Garbled { skipped, .. } => if 0 < skipped <= buf.len() {
            drain(max, buf.skip(skipped as int))
        } else {
            (seq![], buf)
        },
        OutcomeView::Incomplete => (seq![], buf),
    }
}

/// A reader that receives `chunks` one after another, appending each to the
/// bytes still `pending` and draining the result: the frames it yields.
pub open spec fn drive(max: int, pending: Seq<u8>, chunks: Seq<Seq<u8>>) -> Seq<Seq<u8>>
    decreases chunks.len(),
{
    if chunks.len() == 0 {
        seq![]
    } else {
        let (frames, rest) = drain(max, pending + chunks[0]);
        frames + drive(max, rest, chunks.drop_first())
    }
}

/// What a drain leaves behind drains to nothing.
proof fn lemma_drain_residual(max: int, buf: Seq<u8>)
    ensures
        drain(max, drain(max, buf).1) == (Seq::<Seq<u8>>::empty(), drain(max, buf).1),
    decreases buf.len(),
{
    match spec_scan(max, buf) {
        OutcomeView::Frame(frame) => if 0 < frame.bytes.len() <= buf.len() {
            lemma_drain_residual(max, buf.skip(frame.bytes.len() as int));
        },
        OutcomeView::Garbled { skipped, .. } => if 0 < skipped <= buf.len() {
            lemma_drain_residual(max, buf.skip(skipped as int));
        },
        OutcomeView::Incomplete => {},
    }
}

/// A buffer that disagrees with `8=FIX` is garbled, resyncing to the next
/// offset that agrees.
proof fn lemma_scan_disagreeing(max: int, x: Seq<u8>)
    requires
        !agrees_with_begin(x),
    ensures
        spec_scan(max, x) == (OutcomeView::Garbled {
            reason: GarbledReason::MissingBeginString,
            skipped: resync_skip(x) as nat,
        }),
{
    reveal(spec_try_scan);
}

/// A run of offsets from none of which `t` agrees with `8=FIX` yields no
/// frame: draining from its start and from its end gives the same frames.
proof fn lemma_garbage_run(max: int, t: Seq<u8>, a: int, b: int)
    requires
        0 <= a <= b <= t.len(),
        forall|r: int| a <= r < b ==> !agrees_with_begin(#[trigger] t.skip(r)),
    ensures
        drain(max, t.skip(a)).0 == drain(max, t.skip(b)).0,
{
    if a < b {
        let x = t.skip(a);
        assert(!agrees_with_begin(x));
        assert(x.len() >= 1) by {
            if x.len() == 0 {
                assert(agrees_with_begin(x));
            }
        }
        lemma_resync_skip(x);
        let s = resync_skip(x);
        assert forall|i: int| 0 <= i <= x.len() implies #[trigger] x.skip(i) =~= t.skip(a + i) by {}
        let c = a + s;
        lemma_scan_disagreeing(max, x);
        assert(x.skip(s) =~= t.skip(c));
        assert(drain(max, x) == drain(max, t.skip(c)));
        if c < b {
            assert(agrees_with_begin(x.skip(s)));
            assert(!agrees_with_begin(t.skip(c)));
        } else if c > b {
            assert(!agrees_with_begin(t.skip(b))) by {
                assert(x.skip(b - a) =~= t.skip(b));
            }
            let y = t.skip(b);
            assert(y.len() >= 1) by {
                if y.len() == 0 {
                    assert(agrees_with_begin(y));
                }
            }
            lemma_resync_skip(y);
            let r = resync_skip(y);
            assert forall|i: int| 0 <= i <= y.len() implies #[trigger] y.skip(i) =~= t.skip(b + i) by {}
            if r < c - b {
                assert(agrees_with_begin(t.skip(b + r)));
                assert(x.skip(b + r - a) =~= t.skip(b + r));
                assert(!agrees_with_begin(x.skip(b + r - a)));
            } else if r > c - b {
                assert(y.skip(c - b) =~= t.skip(c));
                assert(!agrees_with_begin(y.skip(c - b)));
            }
            lemma_scan_disagreeing(max, y);
            assert(y.skip(r) =~= t.skip(c));
        }
    }
}

/// One step of draining the window `s[p..l]` against draining `s[p..]`:
/// a frame found in the window is found in the whole, and a garble skips in
/// both to offsets from which the whole drains to the same frames.
proof fn lemma_drain_step(max: int, s: Seq<u8>, p: int, l: int)
    requires
        0 <= p <= l <= s.len(),
    ensures
        match spec_scan(max, s.subrange(p, l)) {
            OutcomeView::Frame(frame) => {
                &&& 0 < frame.bytes.len() <= l - p
                &&& spec_scan(max, s.skip(p)) == OutcomeView::Frame(frame)
            },
            OutcomeView::Garbled { skipped, .. } => {
                &&& 0 < skipped <= l - p
                &&& spec_scan(max, s.skip(p)) matches OutcomeView::Garbled { skipped: whole_skip, .. }
                    && skipped <= whole_skip <= s.len() - p && drain(max, s.skip(p + skipped)).0
                    == drain(max, s.skip(p + whole_skip)).0
            },
            OutcomeView::Incomplete => true,
        },
{
    let b = s.subrange(p, l);
    let c = s.skip(p);
    lemma_try_scan_shape(max, b);
    lemma_try_scan_shape(max, c);
    assert(agree_upto(b, c, b.len() as int));
    match spec_try_scan(max, b) {
        Ok(frame) => {
            lemma_scan_agree(max, b, c, frame.bytes.len() as int);
        },
        Err(HaltView::Garbled { reason, skipped }) => {
            lemma_scan_agree(max, b, b, b.len() as int);
            lemma_scan_agree(max, b, c, b.len() as int);
            if !is_post_structural(reason) {
                lemma_resync_skip(b);
                lemma_resync_skip(c);
                let sb = resync_skip(b);
                let sc = resync_skip(c);
                lemma_resync_extend(b, c);
                assert forall|r: int| p + sb <= r < p + sc implies !agrees_with_begin(
                    #[trigger] s.skip(r),
                ) by {
                    assert(1 <= r - p < sc);
                    assert(!agrees_with_begin(c.skip(r - p)));
                    assert(c.skip(r - p) =~= s.skip(r));
                }
                lemma_garbage_run(max, s, p + sb, p + sc);
            }
        },
        Err(HaltView::Incomplete) => {},
    }
}

/// Draining the window `s[p..l]` yields some of the frames that draining
/// `s[p..]` does, leaves `s[q..l]`, and draining `s[q..]` yields the rest.
proof fn lemma_drain_window(max: int, s: Seq<u8>, p: int, l: int) -> (q: int)
    requires
        0 <= p <= l <= s.len(),
    ensures
        p <= q <= l,
        drain(max, s.subrange(p, l)).1 == s.subrange(q, l),
        drain(max, s.subrange(p, l)).0 + drain(max, s.skip(q)).0 == drain(max, s.skip(p)).0,
    decreases l - p,
{
    let b = s.subrange(p, l);
    let c = s.skip(p);
    lemma_drain_step(max, s, p, l);
    match spec_scan(max, b) {
        OutcomeView::Frame(frame) => {
            let n = frame.bytes.len() as int;
            assert(b.skip(n) =~= s.subrange(p + n, l));
            assert(c.skip(n) =~= s.skip(p + n));
            let q = lemma_drain_window(max, s, p + n, l);
            let rest = drain(max, s.subrange(p + n, l)).0;
            assert(seq![frame.bytes] + rest + drain(max, s.skip(q)).0 =~= seq![frame.bytes] + (rest
                + drain(max, s.skip(q)).0));
            q
        },
        OutcomeView::Garbled { skipped, .. } => {
            let n = skipped as int;
            let whole_skip = spec_scan(max, c)->Garbled_skipped as int;
            assert(b.skip(n) =~= s.subrange(p + n, l));
            assert(c.skip(whole_skip) =~= s.skip(p + whole_skip));
            lemma_drain_window(max, s, p + n, l)
        },
        OutcomeView::Incomplete => {
            assert(drain(max, b).0 + drain(max, s.skip(p)).0 =~= drain(max, s.skip(p)).0);
            p
        },
    }
}

/// Driving `chunks` after `pending` yields the frames of draining all of it
/// at once.
proof fn lemma_drive_drains_whole(max: int, pending: Seq<u8>, chunks: Seq<Seq<u8>>)
    requires
        chunks.len() >= 1,
    ensures
        drive(max, pending, chunks) == drain(max, pending + chunks.flatten()).0,
    decreases chunks.len(),
{
    let rest_chunks = chunks.drop_first();
    let whole = pending + chunks.flatten();
    let first = pending + chunks[0];
    assert(whole =~= first + rest_chunks.flatten());
    assert(first =~= whole.subrange(0, first.len() as int));
    assert(whole.skip(0) =~= whole);
    let q = lemma_drain_window(max, whole, 0, first.len() as int);
    let frames = drain(max, first).0;
    let rest = drain(max, first).1;
    assert(drive(max, pending, chunks) == frames + drive(max, rest, rest_chunks));
    assert(frames + drain(max, whole.skip(q)).0 == drain(max, whole).0);
    if rest_chunks.len() == 0 {
        assert(whole =~= first);
        assert(whole.skip(q) =~= rest);
        lemma_drain_residual(max, first);
        assert(drain(max, whole.skip(q)).0 =~= Seq::<Seq<u8>>::empty());
        assert(frames + Seq::<Seq<u8>>::empty() =~= frames);
    } else {
        lemma_drive_drains_whole(max, rest, rest_chunks);
        assert(rest + rest_chunks.flatten() =~= whole.skip(q));
    }
}

/// Chunking equivalence: however a stream is split into chunks on its way
/// in, a reader that drains after each chunk yields exactly the frames that
/// scanning the whole stream at once does.
pub proof fn lemma_chunking_equivalence(max: int, chunks: Seq<Seq<u8>>)
    ensures
        drive(max, Seq::empty(), chunks) == drain(max, chunks.flatten()).0,
{
    if chunks.len() == 0 {
        assert(spec_scan(max, Seq::<u8>::empty()) == OutcomeView::Incomplete) by {
            reveal(spec_try_scan);
            assert(is_begin_prefix(Seq::<u8>::empty()));
        }
    } else {
        lemma_drive_drains_whole(max, Seq::empty(), chunks);
        assert(Seq::<u8>::empty() + chunks.flatten() =~= chunks.flatten());
    }
}

} // verus!
