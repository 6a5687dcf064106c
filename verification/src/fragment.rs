//! Cutting an input into fragments at every single space.
//!
//! The cut is literal: two spaces in a row enclose an empty fragment, and
//! so do a space at either end and the end of the input. No other
//! character separates fragments.

use crate::encoding::{lemma_ascii_char_has_byte, lemma_encode_injective};
use vstd::prelude::*;
use vstd::string::*;
use vstd::utf8::*;

verus! {

/// The one character that separates fragments.
pub open spec fn is_separator(c: char) -> bool {
    c == ' '
}

/// Whether no character of `s` separates fragments.
pub open spec fn is_unbroken(s: Seq<char>) -> bool {
    forall|i: int| 0 <= i < s.len() ==> !is_separator(#[trigger] s[i])
}

/// How many characters stand before the first space of `s`; the length of
/// `s` where it holds no space.
pub open spec fn first_fragment_len(s: Seq<char>) -> nat
    decreases s.len(),
{
    if s.len() == 0 || is_separator(s[0]) {
        0
    } else {
        1 + first_fragment_len(s.drop_first())
    }
}

/// The fragments of `s`, from left to right: what stands before the first
/// space, then the fragments of what follows that space. An input without
/// a space is its own single fragment.
pub open spec fn fragments(s: Seq<char>) -> Seq<Seq<char>>
    decreases s.len(),
{
    let n = first_fragment_len(s) as int;
    if n < s.len() {
        seq![s.take(n)] + fragments(s.skip(n + 1))
    } else {
        seq![s]
    }
}

/// How many spaces `s` holds.
pub open spec fn separator_count(s: Seq<char>) -> nat
    decreases s.len(),
{
    if s.len() == 0 {
        0
    } else if is_separator(s[0]) {
        1 + separator_count(s.drop_first())
    } else {
        separator_count(s.drop_first())
    }
}

/// `parts` written one after the other with a single space between each
/// two neighbours.
pub open spec fn join(parts: Seq<Seq<char>>) -> Seq<char>
    decreases parts.len(),
{
    if parts.len() == 0 {
        Seq::empty()
    } else if parts.len() == 1 {
        parts[0]
    } else {
        parts[0] + seq![' '] + join(parts.drop_first())
    }
}

/// `first_fragment_len` is the position of the first space.
pub proof fn lemma_first_fragment_len(s: Seq<char>)
    ensures
        first_fragment_len(s) <= s.len(),
        is_unbroken(s.take(first_fragment_len(s) as int)),
        first_fragment_len(s) < s.len() ==> is_separator(s[first_fragment_len(s) as int]),
    decreases s.len(),
{
    if s.len() == 0 || is_separator(s[0]) {
    } else {
        let rest = s.drop_first();
        lemma_first_fragment_len(rest);
        let n = first_fragment_len(s) as int;
        assert forall|i: int| 0 <= i < n implies !is_separator(#[trigger] s.take(n)[i]) by {
            if i > 0 {
                assert(rest.take(n - 1)[i - 1] == s[i]);
            }
        }
    }
}

/// A position before which no space stands, and which holds a space or is
/// the end of the input, is where the first fragment ends.
pub proof fn lemma_first_fragment_len_is(s: Seq<char>, n: int)
    requires
        0 <= n <= s.len(),
        is_unbroken(s.take(n)),
        n < s.len() ==> is_separator(s[n]),
    ensures
        first_fragment_len(s) == n,
{
    lemma_first_fragment_len(s);
    let m = first_fragment_len(s) as int;
    if m < n {
        assert(s.take(n)[m] == s[m]);
    } else if n < m {
        assert(s.take(m)[n] == s[n]);
    }
}

/// An input without a space is one fragment.
pub proof fn lemma_fragments_unbroken(s: Seq<char>)
    requires
        is_unbroken(s),
    ensures
        fragments(s) == seq![s],
{
    lemma_first_fragment_len_is(s, s.len() as int);
}

/// The fragments of `head`, a space and `rest`, where `head` holds no
/// space, are `head` and then the fragments of `rest`.
pub proof fn lemma_fragments_split(head: Seq<char>, rest: Seq<char>)
    requires
        is_unbroken(head),
    ensures
        fragments(head + seq![' '] + rest) == seq![head] + fragments(rest),
{
    let s = head + seq![' '] + rest;
    let n = head.len() as int;
    assert(s.take(n) =~= head);
    assert(s.skip(n + 1) =~= rest);
    lemma_first_fragment_len_is(s, n);
}

/// In a valid encoding that starts with an ASCII byte, the second position
/// starts a character or is the end.
proof fn lemma_boundary_after_ascii(bytes: Seq<u8>)
    requires
        valid_utf8(bytes),
        bytes.len() > 0,
        bytes[0] < 0x80,
    ensures
        is_char_boundary(bytes, 1),
{
    reveal_with_fuel(is_char_boundary, 2);
    reveal_with_fuel(valid_utf8, 2);
}

/// Cuts `s` at its first space: what stands before it, and what follows
/// it. `None` where `s` holds no space.
pub fn split_at_space<'a>(s: &'a str) -> (r: Option<(&'a str, &'a str)>)
    ensures
        match r {
            Some(parts) => is_unbroken(parts.0@) && s@ == parts.0@ + seq![' '] + parts.1@,
            None => is_unbroken(s@),
        },
{
    let bytes = s.as_bytes();
    let n: usize = bytes.len();
    let mut i: usize = 0;
    while i < n
        invariant
            i <= n,
            n == bytes@.len(),
            bytes@ == encode_utf8(s@),
            forall|j: int| 0 <= j < i ==> #[trigger] bytes@[j] != ' ' as u8,
        decreases n - i,
    {
        if bytes[i] == ' ' as u8 {
            proof {
                // A space is no continuation byte: a character starts here.
                encode_utf8_valid_utf8(s@);
                is_char_boundary_iff_not_is_continuation_byte(bytes@, i as int);
            }
            let (head, tail) = s.split_at(i);
            proof {
                // The two halves of the bytes decode to `head` and `tail`.
                encode_utf8_decode_utf8(s@);
                encode_utf8_decode_utf8(head@);
                encode_utf8_decode_utf8(tail@);
                decode_utf8_split(bytes@, i as int);
                assert(s@ == head@ + tail@);
                // `tail` starts with the space, which is one byte long.
                encode_utf8_valid_utf8(tail@);
                lemma_boundary_after_ascii(encode_utf8(tail@));
            }
            let (space, rest) = tail.split_at(1);
            proof {
                encode_utf8_decode_utf8(space@);
                encode_utf8_decode_utf8(rest@);
                decode_utf8_split(encode_utf8(tail@), 1);
                is_ascii_chars_encode_utf8(seq![' ']);
                lemma_encode_injective(space@, seq![' ']);
                assert(tail@ == seq![' '] + rest@);
                // No byte before the space is one, so no character of
                // `head` is.
                assert forall|k: int| 0 <= k < head@.len() implies !is_separator(
                    #[trigger] head@[k],
                ) by {
                    if is_separator(head@[k]) {
                        lemma_ascii_char_has_byte(head@, k);
                    }
                }
            }
            return Some((head, rest));
        }
        i += 1;
    }
    proof {
        // No byte is a space, so no character is.
        assert forall|k: int| 0 <= k < s@.len() implies !is_separator(#[trigger] s@[k]) by {
            if is_separator(s@[k]) {
                lemma_ascii_char_has_byte(s@, k);
            }
        }
    }
    None
}

/// Every input has at least one fragment.
pub proof fn lemma_fragments_nonempty(s: Seq<char>)
    ensures
        fragments(s).len() >= 1,
{
}

/// The spaces of `s` are its first one, where it has one, and those that
/// follow it.
proof fn lemma_separator_count_after_first(s: Seq<char>)
    ensures
        separator_count(s) == if first_fragment_len(s) < s.len() {
            1 + separator_count(s.skip(first_fragment_len(s) as int + 1))
        } else {
            0
        },
    decreases s.len(),
{
    if s.len() > 0 && !is_separator(s[0]) {
        let rest = s.drop_first();
        lemma_separator_count_after_first(rest);
        let n = first_fragment_len(rest) as int;
        if n < rest.len() {
            assert(rest.skip(n + 1) =~= s.skip(n + 2));
        }
    }
}

/// An input has one fragment more than it has spaces: each space ends a
/// fragment, be it empty, and the end of the input ends the last one.
pub proof fn lemma_fragments_len(s: Seq<char>)
    ensures
        fragments(s).len() == separator_count(s) + 1,
    decreases s.len(),
{
    lemma_separator_count_after_first(s);
    let n = first_fragment_len(s) as int;
    if n < s.len() {
        lemma_fragments_len(s.skip(n + 1));
    }
}

/// No fragment holds a space.
pub proof fn lemma_fragments_are_unbroken(s: Seq<char>)
    ensures
        forall|i: int| 0 <= i < fragments(s).len() ==> is_unbroken(#[trigger] fragments(s)[i]),
    decreases s.len(),
{
    lemma_first_fragment_len(s);
    let n = first_fragment_len(s) as int;
    if n < s.len() {
        let others = fragments(s.skip(n + 1));
        lemma_fragments_are_unbroken(s.skip(n + 1));
        assert forall|i: int| 0 < i < fragments(s).len() implies #[trigger] fragments(s)[i]
            == others[i - 1] by {}
    } else {
        assert(s.take(n) =~= s);
    }
}

/// Joining the fragments of an input gives the input back: the cut loses
/// nothing but the spaces, and keeps the order.
pub proof fn lemma_join_fragments(s: Seq<char>)
    ensures
        join(fragments(s)) == s,
    decreases s.len(),
{
    lemma_first_fragment_len(s);
    let n = first_fragment_len(s) as int;
    if n < s.len() {
        let others = fragments(s.skip(n + 1));
        lemma_join_fragments(s.skip(n + 1));
        lemma_fragments_nonempty(s.skip(n + 1));
        assert(fragments(s).drop_first() =~= others);
    }
}

/// Fragments without a space, joined and cut again, are the same
/// fragments: the cut is the inverse of `join`.
pub proof fn lemma_fragments_join(parts: Seq<Seq<char>>)
    requires
        parts.len() >= 1,
        forall|i: int| 0 <= i < parts.len() ==> is_unbroken(#[trigger] parts[i]),
    ensures
        fragments(join(parts)) == parts,
    decreases parts.len(),
{
    if parts.len() == 1 {
        lemma_fragments_unbroken(parts[0]);
    } else {
        let others = parts.drop_first();
        lemma_fragments_join(others);
        lemma_fragments_split(parts[0], join(others));
    }
}

/// The fragments of two inputs with a space between them are the
/// fragments of the first and then those of the second.
pub proof fn lemma_fragments_concat(a: Seq<char>, b: Seq<char>)
    ensures
        fragments(a + seq![' '] + b) == fragments(a) + fragments(b),
    decreases a.len(),
{
    lemma_first_fragment_len(a);
    let n = first_fragment_len(a) as int;
    if n < a.len() {
        let head = a.take(n);
        let tail = a.skip(n + 1);
        lemma_fragments_concat(tail, b);
        lemma_fragments_split(head, tail + seq![' '] + b);
        assert(head + seq![' '] + (tail + seq![' '] + b) =~= a + seq![' '] + b);
        assert(seq![head] + (fragments(tail) + fragments(b)) =~= seq![head] + fragments(tail)
            + fragments(b));
    } else {
        assert(a.take(n) =~= a);
        lemma_fragments_split(a, b);
    }
}

} // verus!
