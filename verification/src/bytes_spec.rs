//! Byte-level vocabulary shared by the framing and tokenising layers:
//! searching for a delimiter, ASCII digit runs and their decimal values,
//! and the byte sum behind the FIX checksum.
use vstd::prelude::*;

verus! {

/// The field delimiter, `SOH` (0x01).
pub const SOH: u8 = 0x01;

/// ASCII `0`.
pub const DIGIT_ZERO: u8 = 0x30;

/// ASCII `9`.
pub const DIGIT_NINE: u8 = 0x39;

/// Offset of the first `b` in `w`, if any.
pub open spec fn find_byte(w: Seq<u8>, b: u8) -> Option<int>
    decreases w.len(),
{
    if w.len() == 0 {
        None
    } else if w[0] == b {
        Some(0)
    } else {
        match find_byte(w.drop_first(), b) {
            Some(i) => Some(i + 1),
            None => None,
        }
    }
}

/// `find_byte` returns the first occurrence, or `None` when there is none.
pub proof fn lemma_find_byte(w: Seq<u8>, b: u8)
    ensures
        match find_byte(w, b) {
            Some(i) => 0 <= i < w.len() && w[i] == b && forall|j: int| 0 <= j < i ==> w[j] != b,
            None => forall|j: int| 0 <= j < w.len() ==> w[j] != b,
        },
    decreases w.len(),
{
    if w.len() > 0 && w[0] != b {
        lemma_find_byte(w.drop_first(), b);
        match find_byte(w.drop_first(), b) {
            Some(i) => {
                assert forall|j: int| 0 <= j < i + 1 implies w[j] != b by {
                    if j > 0 {
                        assert(w[j] == w.drop_first()[j - 1]);
                    }
                }
            },
            None => {
                assert forall|j: int| 0 <= j < w.len() implies w[j] != b by {
                    if j > 0 {
                        assert(w[j] == w.drop_first()[j - 1]);
                    }
                }
            },
        }
    }
}

/// A search result that satisfies the characterisation of `find_byte` is
/// the value of `find_byte`.
pub proof fn lemma_find_byte_unique(w: Seq<u8>, b: u8, r: Option<int>)
    requires
        match r {
            Some(i) => 0 <= i < w.len() && w[i] == b && forall|j: int| 0 <= j < i ==> w[j] != b,
            None => forall|j: int| 0 <= j < w.len() ==> w[j] != b,
        },
    ensures
        find_byte(w, b) == r,
{
    lemma_find_byte(w, b);
    match find_byte(w, b) {
        Some(i) => {
            match r {
                Some(k) => {
                    if i < k {
                        assert(w[i] == b);
                    } else if k < i {
                        assert(w[k] == b);
                    }
                },
                None => {
                    assert(w[i] == b);
                },
            }
        },
        None => {
            match r {
                Some(k) => {
                    assert(w[k] == b);
                },
                None => {},
            }
        },
    }
}

/// A first occurrence found in `w1` stays the first occurrence in any `w2`
/// that agrees with `w1` up to and including it.
pub proof fn lemma_find_byte_agree(w1: Seq<u8>, w2: Seq<u8>, b: u8)
    requires
        find_byte(w1, b) is Some,
        find_byte(w1, b)->0 < w2.len(),
        forall|j: int| 0 <= j <= find_byte(w1, b)->0 ==> w1[j] == w2[j],
    ensures
        find_byte(w2, b) == find_byte(w1, b),
{
    lemma_find_byte(w1, b);
    let i = find_byte(w1, b)->0;
    assert(w2[i] == b);
    assert forall|j: int| 0 <= j < i implies w2[j] != b by {
        assert(w1[j] == w2[j]);
    }
    lemma_find_byte_unique(w2, b, Some(i));
}

/// `b` is an ASCII digit.
pub open spec fn is_digit(b: u8) -> bool {
    DIGIT_ZERO <= b <= DIGIT_NINE
}

/// Every byte of `s` is an ASCII digit.
pub open spec fn all_digits(s: Seq<u8>) -> bool {
    forall|i: int| 0 <= i < s.len() ==> is_digit(#[trigger] s[i])
}

/// The decimal value of a run of ASCII digits, most significant first.
pub open spec fn decimal_value(s: Seq<u8>) -> nat
    decreases s.len(),
{
    if s.len() == 0 {
        0
    } else {
        decimal_value(s.drop_last()) * 10 + (s.last() - DIGIT_ZERO) as nat
    }
}

/// A prefix of a digit run is worth no more than the whole run.
pub proof fn lemma_decimal_prefix_le(s: Seq<u8>, k: int)
    requires
        0 <= k <= s.len(),
        all_digits(s),
    ensures
        decimal_value(s.take(k)) <= decimal_value(s),
    decreases s.len() - k,
{
    if k < s.len() {
        let t = s.drop_last();
        assert(all_digits(t)) by {
            assert forall|i: int| 0 <= i < t.len() implies is_digit(#[trigger] t[i]) by {
                assert(t[i] == s[i]);
            }
        }
        lemma_decimal_prefix_le(t, k);
        assert(t.take(k) =~= s.take(k));
    } else {
        assert(s.take(k) =~= s);
    }
}

/// One more digit: the value of `s.take(k + 1)` from that of `s.take(k)`.
pub proof fn lemma_decimal_step(s: Seq<u8>, k: int)
    requires
        0 <= k < s.len(),
    ensures
        decimal_value(s.take(k + 1)) == decimal_value(s.take(k)) * 10 + (s[k] - DIGIT_ZERO) as nat,
{
    assert(s.take(k + 1).drop_last() =~= s.take(k));
}

/// The sum of all bytes of `s`, as an unbounded integer.
pub open spec fn byte_sum(s: Seq<u8>) -> nat
    decreases s.len(),
{
    if s.len() == 0 {
        0
    } else {
        byte_sum(s.drop_last()) + s.last() as nat
    }
}

/// Offset of the first `b` in `s[from..to]`, as an offset into `s`.
pub fn position_of(s: &[u8], from: usize, to: usize, b: u8) -> (r: Option<usize>)
    requires
        from <= to <= s@.len(),
    ensures
        match r {
            Some(i) => from <= i < to && find_byte(s@.subrange(from as int, to as int), b) == Some(
                i - from,
            ),
            None => find_byte(s@.subrange(from as int, to as int), b) is None,
        },
{
    let ghost w = s@.subrange(from as int, to as int);
    let mut i = from;
    while i < to
        invariant
            from <= i <= to <= s@.len(),
            w == s@.subrange(from as int, to as int),
            forall|j: int| 0 <= j < i - from ==> w[j] != b,
        decreases to - i,
    {
        if s[i] == b {
            proof {
                assert(w[i - from] == b);
                lemma_find_byte_unique(w, b, Some(i - from));
            }
            return Some(i);
        }
        assert(w[i - from] != b);
        i = i + 1;
    }
    proof {
        lemma_find_byte_unique(w, b, None);
    }
    None
}

/// Whether every byte of `s[from..to]` is an ASCII digit.
pub fn digits_only(s: &[u8], from: usize, to: usize) -> (r: bool)
    requires
        from <= to <= s@.len(),
    ensures
        r == all_digits(s@.subrange(from as int, to as int)),
{
    let ghost w = s@.subrange(from as int, to as int);
    let mut i = from;
    while i < to
        invariant
            from <= i <= to <= s@.len(),
            w == s@.subrange(from as int, to as int),
            forall|j: int| 0 <= j < i - from ==> is_digit(#[trigger] w[j]),
        decreases to - i,
    {
        if s[i] < DIGIT_ZERO || s[i] > DIGIT_NINE {
            assert(!is_digit(w[i - from]));
            return false;
        }
        assert(is_digit(w[i - from]));
        i = i + 1;
    }
    true
}

/// The decimal value of the digits `s[from..to]`, or `None` when it does not
/// fit in a `u64`.
pub fn decimal_u64(s: &[u8], from: usize, to: usize) -> (r: Option<u64>)
    requires
        from <= to <= s@.len(),
        all_digits(s@.subrange(from as int, to as int)),
    ensures
        match r {
            Some(v) => v == decimal_value(s@.subrange(from as int, to as int)),
            None => decimal_value(s@.subrange(from as int, to as int)) > u64::MAX,
        },
{
    let ghost w = s@.subrange(from as int, to as int);
    let mut acc: u64 = 0;
    let mut i = from;
    assert(w.take(0) =~= Seq::<u8>::empty());
    while i < to
        invariant
            from <= i <= to <= s@.len(),
            w == s@.subrange(from as int, to as int),
            all_digits(w),
            acc == decimal_value(w.take(i - from)),
        decreases to - i,
    {
        let k: Ghost<int> = Ghost(i - from);
        proof {
            lemma_decimal_step(w, k@);
            assert(is_digit(w[k@]));
        }
        let d = (s[i] - DIGIT_ZERO) as u64;
        match acc.checked_mul(10) {
            Some(m) => match m.checked_add(d) {
                Some(v) => {
                    acc = v;
                },
                None => {
                    proof {
                        lemma_decimal_prefix_le(w, k@ + 1);
                    }
                    return None;
                },
            },
            None => {
                proof {
                    lemma_decimal_prefix_le(w, k@ + 1);
                }
                return None;
            },
        }
        i = i + 1;
    }
    assert(w.take(to - from) =~= w);
    Some(acc)
}

/// The decimal value of the digits `s[from..to]`, or `None` when it does not
/// fit in a `usize`.
pub fn decimal_usize(s: &[u8], from: usize, to: usize) -> (r: Option<usize>)
    requires
        from <= to <= s@.len(),
        all_digits(s@.subrange(from as int, to as int)),
    ensures
        match r {
            Some(v) => v == decimal_value(s@.subrange(from as int, to as int)),
            None => decimal_value(s@.subrange(from as int, to as int)) > usize::MAX,
        },
{
    match decimal_u64(s, from, to) {
        Some(v) => if v <= usize::MAX as u64 {
            Some(v as usize)
        } else {
            None
        },
        None => None,
    }
}

/// The decimal value of the digits `s[from..to]`, or `None` when it does not
/// fit in a `u32`.
pub fn decimal_u32(s: &[u8], from: usize, to: usize) -> (r: Option<u32>)
    requires
        from <= to <= s@.len(),
        all_digits(s@.subrange(from as int, to as int)),
    ensures
        match r {
            Some(v) => v == decimal_value(s@.subrange(from as int, to as int)),
            None => decimal_value(s@.subrange(from as int, to as int)) > u32::MAX,
        },
{
    match decimal_u64(s, from, to) {
        Some(v) => if v <= u32::MAX as u64 {
            Some(v as u32)
        } else {
            None
        },
        None => None,
    }
}

} // verus!
