//! Unsigned decimal literals: which fragments are literals, and which
//! number a literal denotes.

use crate::encoding::lemma_ascii_bytes_decode;
use crate::token::{Token, TokenizeError};
use vstd::prelude::*;
use vstd::string::*;
use vstd::utf8::*;

verus! {

/// Whether `c` is one of the ten ASCII digits.
pub open spec fn is_digit(c: char) -> bool {
    '0' <= c <= '9'
}

/// Whether `s` holds ASCII digits and nothing else. The empty sequence does.
pub open spec fn is_digits(s: Seq<char>) -> bool {
    forall|i: int| 0 <= i < s.len() ==> is_digit(#[trigger] s[i])
}

/// The number a digit stands for.
pub open spec fn digit_value(c: char) -> nat
    recommends
        is_digit(c),
{
    (c as int - '0' as int) as nat
}

/// The number that a sequence of digits denotes in base ten; 0 for the
/// empty sequence. Leading zeros do not change it.
pub open spec fn decimal_value(s: Seq<char>) -> nat
    recommends
        is_digits(s),
    decreases s.len(),
{
    if s.len() == 0 {
        0
    } else {
        10 * decimal_value(s.drop_last()) + digit_value(s.last())
    }
}

/// The token of a fragment made of digits alone: its value, where there is
/// at least one digit and the value is at most `i32::MAX`.
pub open spec fn decode(s: Seq<char>) -> Result<Token, TokenizeError>
    recommends
        is_digits(s),
{
    if s.len() == 0 {
        Err(TokenizeError::EmptyLiteral)
    } else if decimal_value(s) > i32::MAX {
        Err(TokenizeError::IntegerOverflow)
    } else {
        Ok(Token::Int { value: decimal_value(s) as i32 })
    }
}

/// Whether `b` is the byte of an ASCII digit.
pub open spec fn is_digit_byte(b: u8) -> bool {
    '0' as u8 <= b <= '9' as u8
}

/// A string is made of digits exactly if its encoding is made of digit
/// bytes, and then the encoding holds one byte for each digit.
pub proof fn lemma_digits_encode(s: Seq<char>)
    ensures
        is_digits(s) <==> forall|j: int|
            0 <= j < encode_utf8(s).len() ==> is_digit_byte(#[trigger] encode_utf8(s)[j]),
        is_digits(s) ==> encode_utf8(s).len() == s.len(),
        is_digits(s) ==> forall|i: int|
            0 <= i < s.len() ==> #[trigger] encode_utf8(s)[i] == s[i] as u8,
{
    let bytes = encode_utf8(s);
    if is_digits(s) {
        is_ascii_chars_encode_utf8(s);
    }
    if forall|j: int| 0 <= j < bytes.len() ==> is_digit_byte(#[trigger] bytes[j]) {
        lemma_ascii_bytes_decode(s);
        is_ascii_chars_encode_utf8(s);
    }
}

/// Reading one more digit multiplies the value by ten and adds the digit.
pub proof fn lemma_decimal_value_step(s: Seq<char>, k: int)
    requires
        0 <= k < s.len(),
    ensures
        decimal_value(s.take(k + 1)) == 10 * decimal_value(s.take(k)) + digit_value(s[k]),
{
    assert(s.take(k + 1).drop_last() =~= s.take(k));
}

/// The digits read so far never denote more than the whole literal.
pub proof fn lemma_decimal_value_prefix(s: Seq<char>, k: int)
    requires
        0 <= k <= s.len(),
    ensures
        decimal_value(s.take(k)) <= decimal_value(s),
    decreases s.len() - k,
{
    if k == s.len() {
        assert(s.take(k) =~= s);
    } else {
        lemma_decimal_value_step(s, k);
        lemma_decimal_value_prefix(s, k + 1);
    }
}

/// A zero in front of a literal does not change the number it denotes.
pub proof fn lemma_decimal_value_leading_zero(s: Seq<char>)
    ensures
        decimal_value(seq!['0'] + s) == decimal_value(s),
    decreases s.len(),
{
    let zero = seq!['0'];
    if s.len() == 0 {
        assert((zero + s).drop_last() =~= s);
    } else {
        lemma_decimal_value_leading_zero(s.drop_last());
        assert((zero + s).drop_last() =~= zero + s.drop_last());
    }
}

/// Whether `s` holds ASCII digits and nothing else.
pub fn is_int(s: &str) -> (r: bool)
    ensures
        r == is_digits(s@),
{
    let bytes = s.as_bytes();
    let n: usize = bytes.len();
    let mut i: usize = 0;
    proof {
        lemma_digits_encode(s@);
    }
    while i < n
        invariant
            i <= n,
            n == bytes@.len(),
            bytes@ == encode_utf8(s@),
            forall|j: int| 0 <= j < i ==> is_digit_byte(#[trigger] bytes@[j]),
            is_digits(s@) <==> forall|j: int|
                0 <= j < encode_utf8(s@).len() ==> is_digit_byte(#[trigger] encode_utf8(s@)[j]),
        decreases n - i,
    {
        let b: u8 = bytes[i];
        if b < '0' as u8 || b > '9' as u8 {
            return false;
        }
        i += 1;
    }
    true
}

/// Reads the number that the digits of `s` denote.
///
/// Fails with `EmptyLiteral` where `s` is empty and with `IntegerOverflow`
/// where the number is above `i32::MAX`, however many leading zeros it has.
pub fn to_int(s: &str) -> (r: Result<Token, TokenizeError>)
    requires
        is_digits(s@),
    ensures
        r == decode(s@),
{
    let bytes = s.as_bytes();
    let n: usize = bytes.len();
    proof {
        lemma_digits_encode(s@);
    }
    if n == 0 {
        return Err(TokenizeError::EmptyLiteral);
    }
    let mut value: i64 = 0;
    let mut i: usize = 0;
    while i < n
        invariant
            i <= n,
            n == bytes@.len(),
            n == s@.len(),
            is_digits(s@),
            forall|j: int| 0 <= j < n ==> #[trigger] bytes@[j] == s@[j] as u8,
            0 <= value <= i32::MAX,
            value == decimal_value(s@.take(i as int)),
        decreases n - i,
    {
        let b: u8 = bytes[i];
        proof {
            lemma_decimal_value_step(s@, i as int);
        }
        let digit: i64 = (b - '0' as u8) as i64;
        let next: i64 = value * 10 + digit;
        if next > i32::MAX as i64 {
            proof {
                lemma_decimal_value_prefix(s@, i + 1);
            }
            return Err(TokenizeError::IntegerOverflow);
        }
        value = next;
        i += 1;
    }
    assert(s@.take(n as int) =~= s@);
    Ok(Token::Int { value: value as i32 })
}

} // verus!
