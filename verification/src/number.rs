//! Reading a coordinate from the text of an attribute.
//!
//! A coordinate is written as a decimal integer: an optional sign, `+` or
//! `-`, and then one digit or more, with nothing before, between or after.

use vstd::prelude::*;
use vstd::string::is_ascii_spec_bytes;

verus! {

/// Why a text gives no coordinate.
#[derive(Clone, Copy, Debug, PartialEq, Eq, Structural)]
pub enum NumberError {
    /// The text is not a decimal integer.
    Malformed,
    /// The text is a decimal integer that no coordinate can hold.
    OutOfRange,
}

pub open spec fn is_digit(c: char) -> bool {
    '0' <= c && c <= '9'
}

/// Every character is a digit.
pub open spec fn all_digits(s: Seq<char>) -> bool {
    forall|i: int| 0 <= i < s.len() ==> is_digit(#[trigger] s[i])
}

/// The number that a run of digits writes, most significant digit first.
pub open spec fn digits_value(s: Seq<char>) -> nat
    decreases s.len(),
{
    if s.len() == 0 {
        0
    } else {
        (digits_value(s.drop_last()) * 10 + (s.last() as int - '0' as int)) as nat
    }
}

/// The digits of a text: all of it but a leading sign.
pub open spec fn digits_of(s: Seq<char>) -> Seq<char> {
    if s.len() > 0 && (s[0] == '-' || s[0] == '+') {
        s.skip(1)
    } else {
        s
    }
}

/// The integer that a text writes, if it writes one.
pub open spec fn decimal_value(s: Seq<char>) -> Option<int> {
    let digits = digits_of(s);
    if digits.len() == 0 || !all_digits(digits) {
        None
    } else if s[0] == '-' {
        Some(-(digits_value(digits) as int))
    } else {
        Some(digits_value(digits) as int)
    }
}

/// The coordinate that a text writes, or why it writes none.
pub open spec fn coordinate_of(s: Seq<char>) -> Result<i64, NumberError> {
    match decimal_value(s) {
        None => Err(NumberError::Malformed),
        Some(v) => if i64::MIN <= v <= i64::MAX {
            Ok(v as i64)
        } else {
            Err(NumberError::OutOfRange)
        },
    }
}

/// One more digit extends the number by a decimal place.
proof fn lemma_digits_step(s: Seq<char>, k: int)
    requires
        0 <= k < s.len(),
        is_digit(s[k]),
    ensures
        digits_value(s.take(k + 1)) == digits_value(s.take(k)) * 10 + (s[k] as int - '0' as int),
        digits_value(s.take(k + 1)) >= digits_value(s.take(k)),
{
    assert(s.take(k + 1).drop_last() =~= s.take(k));
    assert(s.take(k + 1).last() == s[k]);
}

/// A text with a character outside ASCII writes no integer.
proof fn lemma_decimal_is_ascii(s: Seq<char>)
    requires
        decimal_value(s) is Some,
    ensures
        vstd::utf8::is_ascii_chars(s),
{
    let digits = digits_of(s);
    assert forall|i: int| 0 <= i < s.len() implies '\0' <= #[trigger] s[i] <= '\u{7f}' by {
        if digits.len() == s.len() {
            assert(is_digit(digits[i]));
        } else if i > 0 {
            assert(is_digit(digits[i - 1]));
        }
    }
}

/// Reads a coordinate from `text`.
pub fn parse_coordinate(text: &str) -> (r: Result<i64, NumberError>)
    ensures
        r == coordinate_of(text@),
{
    if !text.is_ascii() {
        proof {
            if decimal_value(text@) is Some {
                lemma_decimal_is_ascii(text@);
            }
        }
        return Err(NumberError::Malformed);
    }
    proof {
        is_ascii_spec_bytes(text);
    }
    let bytes = text.as_bytes();
    let n: usize = bytes.len();
    if n == 0 {
        return Err(NumberError::Malformed);
    }
    let negative: bool = bytes[0] == 45u8;
    let start: usize = if negative || bytes[0] == 43u8 {
        1
    } else {
        0
    };
    let ghost digits = digits_of(text@);
    assert(digits =~= text@.skip(start as int));
    if start == n {
        return Err(NumberError::Malformed);
    }
    let limit: u128 = 9_223_372_036_854_775_808u128;
    let mut magnitude: u128 = 0;
    let mut over: bool = false;
    let mut k: usize = start;
    assert(digits.take(0) =~= Seq::<char>::empty());
    while k < n
        invariant
            start <= k <= n,
            n == text@.len(),
            n == bytes@.len(),
            limit == 9_223_372_036_854_775_808u128,
            digits == text@.skip(start as int),
            digits == digits_of(text@),
            forall|i: int| 0 <= i < n ==> bytes@[i] == text@[i] as u8,
            vstd::utf8::is_ascii_chars(text@),
            all_digits(digits.take(k - start)),
            !over ==> magnitude == digits_value(digits.take(k - start)) && magnitude <= limit,
            over ==> digits_value(digits.take(k - start)) > limit,
        decreases n - k,
    {
        let b: u8 = bytes[k];
        let ghost c = text@[k as int];
        assert(digits[k - start] == c);
        assert(b == c as u8);
        assert('\0' <= c <= '\u{7f}');
        if b < 48u8 || b > 57u8 {
            assert(!is_digit(digits[k - start]));
            return Err(NumberError::Malformed);
        }
        proof {
            assert(is_digit(c));
            lemma_digits_step(digits, k - start);
            assert forall|i: int| 0 <= i < k - start + 1 implies is_digit(
                #[trigger] digits.take(k - start + 1)[i],
            ) by {
                if i < k - start {
                    assert(is_digit(digits.take(k - start)[i]));
                }
            }
        }
        if !over {
            let next: u128 = magnitude * 10 + (b - 48u8) as u128;
            if next > limit {
                over = true;
            } else {
                magnitude = next;
            }
        }
        k += 1;
    }
    assert(digits.take(n - start) =~= digits);
    if over {
        return Err(NumberError::OutOfRange);
    }
    if negative {
        if magnitude == limit {
            Ok(i64::MIN)
        } else {
            Ok(-(magnitude as i64))
        }
    } else if magnitude == limit {
        Err(NumberError::OutOfRange)
    } else {
        Ok(magnitude as i64)
    }
}

} // verus!
