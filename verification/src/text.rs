//! Reading field values as text and integers, and writing integers as text.
use vstd::prelude::*;
use vstd::utf8::{pop_first_scalar, valid_utf8};
use vstd::string::StringSliceAdditionalSpecFns;
use crate::quickfix::{digits_value, is_digit_char};
use crate::bytes_spec::{
    DIGIT_ZERO, all_digits, decimal_u64, decimal_value, digits_only, is_digit,
};

verus! {

/// ASCII `-`.
pub const ASCII_MINUS: u8 = 0x2d;

/// ASCII `+`.
pub const ASCII_PLUS: u8 = 0x2b;

/// `std::str::from_utf8`: the bytes as a string slice exactly when they are
/// valid UTF-8 (as vstd's `valid_utf8` states it), holding those bytes. The
/// error that describes an invalid byte is dropped.
#[verifier::external_body]
pub(crate) fn str_from_utf8(bytes: &[u8]) -> (text: Option<&str>)
    ensures
        text is Some <==> valid_utf8(bytes@),
        text matches Some(s) ==> s.spec_bytes() == bytes@,
{
    std::str::from_utf8(bytes).ok()
}

/// `String::push`: appends one character.
#[verifier::external_body]
pub(crate) fn string_push(s: &mut String, c: char)
    ensures
        final(s)@ == old(s)@.push(c),
{
    s.push(c)
}

/// The value of a decimal integer as `i64::from_str` reads it: an optional
/// `+` or `-` sign followed by one or more ASCII digits and nothing else,
/// whose value fits in an `i64`.
pub open spec fn spec_parse_i64(s: Seq<u8>) -> Option<i64> {
    let negative = s.len() > 0 && s[0] == ASCII_MINUS;
    let signed = s.len() > 0 && (s[0] == ASCII_MINUS || s[0] == ASCII_PLUS);
    let digits = if signed { s.skip(1) } else { s };
    if digits.len() == 0 || !all_digits(digits) {
        None
    } else if negative {
        if decimal_value(digits) <= 0x8000_0000_0000_0000 {
            Some((0 - decimal_value(digits)) as i64)
        } else {
            None
        }
    } else if decimal_value(digits) <= i64::MAX {
        Some(decimal_value(digits) as i64)
    } else {
        None
    }
}

/// Parses a decimal integer the way `i64::from_str` does.
pub fn parse_i64(s: &[u8]) -> (r: Option<i64>)
    ensures
        r == spec_parse_i64(s@),
{
    let len = s.len();
    let signed = len > 0 && (s[0] == ASCII_MINUS || s[0] == ASCII_PLUS);
    let negative = len > 0 && s[0] == ASCII_MINUS;
    let start: usize = if signed { 1 } else { 0 };
    let ghost digits = s@.subrange(start as int, len as int);
    assert(digits =~= (if signed { s@.skip(1) } else { s@ }));
    if start == len || !digits_only(s, start, len) {
        return None;
    }
    let value = match decimal_u64(s, start, len) {
        Some(v) => v,
        None => return None,
    };
    if negative {
        if value > 0x8000_0000_0000_0000 {
            None
        } else if value == 0x8000_0000_0000_0000 {
            Some(i64::MIN)
        } else {
            Some(-(value as i64))
        }
    } else if value > 0x7fff_ffff_ffff_ffff {
        None
    } else {
        Some(value as i64)
    }
}

/// ASCII bytes are valid UTF-8.
proof fn lemma_ascii_is_utf8(bytes: Seq<u8>)
    requires
        forall|i: int| 0 <= i < bytes.len() ==> #[trigger] bytes[i] <= 0x7f,
    ensures
        valid_utf8(bytes),
    decreases bytes.len(),
{
    if bytes.len() > 0 {
        let rest = bytes.subrange(1, bytes.len() as int);
        assert(pop_first_scalar(bytes) =~= rest);
        lemma_ascii_is_utf8(rest);
    }
}

/// Text that `i64::from_str` accepts is ASCII, so bytes that
/// [`spec_parse_i64`] reads as an integer are valid UTF-8: reading a value
/// as an integer is reading it as text and parsing that text.
pub proof fn lemma_integer_text_is_utf8(s: Seq<u8>)
    ensures
        spec_parse_i64(s) is Some ==> valid_utf8(s),
{
    if spec_parse_i64(s) is Some {
        let signed = s.len() > 0 && (s[0] == ASCII_MINUS || s[0] == ASCII_PLUS);
        let digits = if signed { s.skip(1) } else { s };
        assert forall|i: int| 0 <= i < s.len() implies #[trigger] s[i] <= 0x7f by {
            if signed && i > 0 {
                assert(s[i] == digits[i - 1]);
                assert(is_digit(digits[i - 1]));
            } else if !signed {
                assert(is_digit(digits[i]));
            }
        }
        lemma_ascii_is_utf8(s);
    }
}

/// The ASCII digit character for `d` (0 to 9).
pub open spec fn digit_char(d: nat) -> char {
    (d + 0x30) as char
}

/// The decimal text of `n`, without leading zeros.
pub open spec fn decimal_text(n: nat) -> Seq<char>
    decreases n,
{
    if n < 10 {
        seq![digit_char(n)]
    } else {
        decimal_text(n / 10).push(digit_char(n % 10))
    }
}

/// The decimal text of `n` is its numeral: every character is a digit, the
/// digits read back as `n`, and only zero itself starts with `0`.
pub proof fn lemma_decimal_text_reads_back(n: nat)
    ensures
        decimal_text(n).len() >= 1,
        forall|i: int| 0 <= i < decimal_text(n).len() ==> is_digit_char(#[trigger] decimal_text(n)[i]),
        digits_value(decimal_text(n)) == n,
        decimal_text(n)[0] == '0' ==> n == 0,
    decreases n,
{
    if n < 10 {
        let c = digit_char(n);
        assert(c as u32 == n + 0x30);
        assert(seq![c].drop_last() =~= Seq::<char>::empty());
        assert(digits_value(seq![c]) == digits_value(Seq::<char>::empty()) * 10 + ((c as u32)
            - 0x30) as nat);
        assert(decimal_text(n) == seq![c]);
    } else {
        lemma_decimal_text_reads_back(n / 10);
        let prefix = decimal_text(n / 10);
        let c = digit_char(n % 10);
        assert(c as u32 == n % 10 + 0x30);
        let t = prefix.push(c);
        assert(t.drop_last() =~= prefix);
        assert(decimal_text(n) == t);
        assert(digits_value(t) == digits_value(prefix) * 10 + ((c as u32) - 0x30) as nat);
        assert(n == (n / 10) * 10 + n % 10) by (nonlinear_arith);
        assert forall|i: int| 0 <= i < t.len() implies is_digit_char(#[trigger] t[i]) by {
            if i < prefix.len() {
                assert(t[i] == prefix[i]);
            }
        }
        assert(t[0] == prefix[0]);
    }
}

/// Appends the decimal text of `n` to `s`.
pub fn push_decimal(s: &mut String, n: u32)
    ensures
        final(s)@ == old(s)@ + decimal_text(n as nat),
    decreases n,
{
    if n >= 10 {
        push_decimal(s, n / 10);
    }
    let digit = ((n % 10) as u8 + DIGIT_ZERO) as char;
    string_push(s, digit);
    proof {
        assert(digit == digit_char((n % 10) as nat));
        if n >= 10 {
            assert(old(s)@ + decimal_text((n / 10) as nat) + seq![digit] =~= old(s)@ + decimal_text(
                n as nat,
            ));
        } else {
            assert(old(s)@.push(digit) =~= old(s)@ + decimal_text(n as nat));
        }
    }
}

} // verus!
