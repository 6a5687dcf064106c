//! Facts that tie the characters of a string to the bytes of its UTF-8
//! encoding, as far as the lexer needs them.
//!
//! The lexer reads a string byte by byte, while its result is stated over
//! the string's characters. Every character the lexer looks for is ASCII,
//! and an ASCII character is encoded as the one byte of the same value,
//! which occurs nowhere inside the encoding of another character.

use vstd::prelude::*;
use vstd::utf8::*;

verus! {

/// Two strings with the same encoding are the same string.
pub proof fn lemma_encode_injective(a: Seq<char>, b: Seq<char>)
    requires
        encode_utf8(a) == encode_utf8(b),
    ensures
        a == b,
{
    encode_utf8_decode_utf8(a);
    encode_utf8_decode_utf8(b);
}

/// A string whose encoding holds only bytes below `0x80` is made of ASCII
/// characters.
pub proof fn lemma_ascii_bytes_decode(chars: Seq<char>)
    requires
        forall|j: int| 0 <= j < encode_utf8(chars).len() ==> #[trigger] encode_utf8(chars)[j] < 0x80,
    ensures
        is_ascii_chars(chars),
{
    // The bytes, read as one character each, are a string with the same
    // encoding.
    let bytes = encode_utf8(chars);
    let plain = Seq::new(bytes.len(), |i: int| bytes[i] as char);
    is_ascii_chars_encode_utf8(plain);
    assert(encode_utf8(plain) =~= bytes);
    lemma_encode_injective(plain, chars);
}

/// An ASCII character of a string occurs in the string's encoding as the
/// byte of its own value. The result is a position of that byte.
pub proof fn lemma_ascii_char_has_byte(chars: Seq<char>, k: int) -> (j: int)
    requires
        0 <= k < chars.len(),
        '\0' <= chars[k] <= '\u{7f}',
    ensures
        0 <= j < encode_utf8(chars).len(),
        encode_utf8(chars)[j] == chars[k] as u8,
    decreases chars.len(),
{
    char_is_scalar(chars[0]);
    let first = chars[0] as u32;
    let head = encode_scalar(first);
    if k == 0 {
        assert(first as u8 == leading_byte_width_1(first)) by (bit_vector)
            requires
                first <= 0x7f,
        ;
        0
    } else {
        let j = lemma_ascii_char_has_byte(chars.drop_first(), k - 1);
        head.len() + j
    }
}

} // verus!
