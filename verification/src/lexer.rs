//! The lexer: one token for each fragment of the input, in the input's
//! order.

use crate::encoding::lemma_encode_injective;
use crate::fragment::{
    fragments, lemma_fragments_concat, lemma_fragments_len, lemma_fragments_split,
    lemma_fragments_unbroken, separator_count, split_at_space,
};
use crate::literal::{decode, is_digits, is_int, to_int};
use crate::token::{Token, TokenizeError};
use vstd::prelude::*;
use vstd::string::*;
use vstd::utf8::*;

verus! {

/// Whether `fragment` is the single character `symbol`.
pub open spec fn is_symbol(fragment: Seq<char>, symbol: char) -> bool {
    fragment.len() == 1 && fragment[0] == symbol
}

/// The token of one fragment. The six symbols come first; a fragment made
/// of digits alone is a literal, and fails where `decode` does; every
/// other fragment is unknown.
pub open spec fn classify(fragment: Seq<char>) -> Result<Token, TokenizeError> {
    if is_symbol(fragment, '(') {
        Ok(Token::OpenBracket)
    } else if is_symbol(fragment, ')') {
        Ok(Token::CloseBracket)
    } else if is_symbol(fragment, '*') {
        Ok(Token::Multiplication)
    } else if is_symbol(fragment, '+') {
        Ok(Token::Addition)
    } else if is_symbol(fragment, '/') {
        Ok(Token::Division)
    } else if is_symbol(fragment, '-') {
        Ok(Token::Subtraction)
    } else if is_digits(fragment) {
        decode(fragment)
    } else {
        Ok(Token::UnknownToken)
    }
}

/// `tokens` put in front of the tokens of `rest`; the failure of `rest`
/// where it fails.
pub open spec fn prepend(tokens: Seq<Token>, rest: Result<Seq<Token>, TokenizeError>) -> Result<
    Seq<Token>,
    TokenizeError,
> {
    match rest {
        Ok(more) => Ok(tokens + more),
        Err(e) => Err(e),
    }
}

/// The tokens of `parts`, one for each, in the same order; where some
/// fragment fails, the failure of the leftmost one that does.
pub open spec fn classify_all(parts: Seq<Seq<char>>) -> Result<Seq<Token>, TokenizeError>
    decreases parts.len(),
{
    if parts.len() == 0 {
        Ok(Seq::empty())
    } else {
        match classify(parts[0]) {
            Ok(token) => prepend(seq![token], classify_all(parts.drop_first())),
            Err(e) => Err(e),
        }
    }
}

/// What the lexer makes of the input `s`: the tokens of its fragments.
pub open spec fn tokenize(s: Seq<char>) -> Result<Seq<Token>, TokenizeError> {
    classify_all(fragments(s))
}

/// What a run of the lexer returned, as a value of the model.
pub open spec fn outcome(r: Result<Vec<Token>, TokenizeError>) -> Result<Seq<Token>, TokenizeError> {
    match r {
        Ok(tokens) => Ok(tokens@),
        Err(e) => Err(e),
    }
}

/// A string is the one ASCII character `symbol` exactly if its encoding is
/// the one byte of that value.
proof fn lemma_symbol_encode(fragment: Seq<char>, symbol: char)
    requires
        '\0' <= symbol <= '\u{7f}',
    ensures
        is_symbol(fragment, symbol) <==> encode_utf8(fragment).len() == 1 && encode_utf8(
            fragment,
        )[0] == symbol as u8,
{
    let one = seq![symbol];
    is_ascii_chars_encode_utf8(one);
    if is_symbol(fragment, symbol) {
        assert(fragment =~= one);
    }
    if encode_utf8(fragment).len() == 1 && encode_utf8(fragment)[0] == symbol as u8 {
        lemma_encode_injective(fragment, one);
    }
}

/// The token of one fragment.
///
/// Fails on a fragment of digits that `to_int` cannot read: the empty
/// fragment, and a number above `i32::MAX`.
pub fn lex_fragment(fragment: &str) -> (r: Result<Token, TokenizeError>)
    ensures
        r == classify(fragment@),
{
    let bytes = fragment.as_bytes();
    proof {
        lemma_symbol_encode(fragment@, '(');
        lemma_symbol_encode(fragment@, ')');
        lemma_symbol_encode(fragment@, '*');
        lemma_symbol_encode(fragment@, '+');
        lemma_symbol_encode(fragment@, '/');
        lemma_symbol_encode(fragment@, '-');
    }
    if bytes.len() == 1 {
        let b: u8 = bytes[0];
        if b == '(' as u8 {
            return Ok(Token::OpenBracket);
        } else if b == ')' as u8 {
            return Ok(Token::CloseBracket);
        } else if b == '*' as u8 {
            return Ok(Token::Multiplication);
        } else if b == '+' as u8 {
            return Ok(Token::Addition);
        } else if b == '/' as u8 {
            return Ok(Token::Division);
        } else if b == '-' as u8 {
            return Ok(Token::Subtraction);
        }
    }
    if is_int(fragment) {
        to_int(fragment)
    } else {
        Ok(Token::UnknownToken)
    }
}

/// The tokens of `parts` once the token of the first is known.
proof fn lemma_classify_all_first(first: Seq<char>, others: Seq<Seq<char>>)
    ensures
        classify_all(seq![first] + others) == match classify(first) {
            Ok(token) => prepend(seq![token], classify_all(others)),
            Err(e) => Err(e),
        },
{
    let parts = seq![first] + others;
    assert(parts.drop_first() =~= others);
}

/// Cuts `s` at every space and gives the token of each fragment, in the
/// order of the input: as many tokens as there are fragments, each the
/// token of the fragment at its position.
///
/// Fails where some fragment does, with the failure of the leftmost such
/// fragment, and then gives no token at all.
#[verifier::loop_isolation(false)]
pub fn lex(s: &str) -> (r: Result<Vec<Token>, TokenizeError>)
    ensures
        outcome(r) == tokenize(s@),
        r is Ok <==> forall|i: int|
            0 <= i < fragments(s@).len() ==> (#[trigger] classify(fragments(s@)[i])) is Ok,
        r matches Ok(tokens) ==> tokens@.len() == fragments(s@).len() && forall|i: int|
            0 <= i < tokens@.len() ==> #[trigger] classify(fragments(s@)[i]) == Ok::<
                Token,
                TokenizeError,
            >(tokens@[i]),
        r matches Err(e) ==> exists|i: int|
            0 <= i < fragments(s@).len() && #[trigger] classify(fragments(s@)[i]) == Err::<
                Token,
                TokenizeError,
            >(e) && forall|j: int| 0 <= j < i ==> (#[trigger] classify(fragments(s@)[j])) is Ok,
{
    let mut tokens: Vec<Token> = Vec::new();
    let mut rest: &str = s;
    proof {
        lemma_tokenize_each(s@);
    }
    loop
        invariant
            tokenize(s@) == prepend(tokens@, tokenize(rest@)),
        decreases rest@.len(),
    {
        match split_at_space(rest) {
            Some((head, tail)) => {
                proof {
                    lemma_fragments_split(head@, tail@);
                    lemma_classify_all_first(head@, fragments(tail@));
                }
                match lex_fragment(head) {
                    Ok(token) => {
                        proof {
                            let more = tokenize(tail@);
                            if more is Ok {
                                assert(tokens@ + (seq![token] + more->Ok_0) =~= tokens@.push(token)
                                    + more->Ok_0);
                            }
                        }
                        tokens.push(token);
                        rest = tail;
                    },
                    Err(e) => {
                        return Err(e);
                    },
                }
            },
            None => {
                proof {
                    lemma_fragments_unbroken(rest@);
                    lemma_classify_all_first(rest@, Seq::empty());
                }
                match lex_fragment(rest) {
                    Ok(token) => {
                        proof {
                            assert(tokens@ + (seq![token] + Seq::<Token>::empty()) =~= tokens@.push(
                                token,
                            ));
                        }
                        tokens.push(token);
                        return Ok(tokens);
                    },
                    Err(e) => {
                        return Err(e);
                    },
                }
            },
        }
    }
}

/// One token for each fragment, in the fragments' order: where all
/// fragments are accepted the result holds, at each position, the token of
/// the fragment at that position; otherwise the result is the failure of
/// the leftmost fragment that is not accepted.
pub proof fn lemma_classify_all_each(parts: Seq<Seq<char>>)
    ensures
        classify_all(parts) is Ok <==> forall|i: int|
            0 <= i < parts.len() ==> (#[trigger] classify(parts[i])) is Ok,
        classify_all(parts) matches Ok(tokens) ==> tokens.len() == parts.len() && forall|i: int|
            0 <= i < parts.len() ==> #[trigger] classify(parts[i]) == Ok::<Token, TokenizeError>(
                tokens[i],
            ),
        classify_all(parts) matches Err(e) ==> exists|i: int|
            0 <= i < parts.len() && #[trigger] classify(parts[i]) == Err::<Token, TokenizeError>(e)
                && forall|j: int| 0 <= j < i ==> (#[trigger] classify(parts[j])) is Ok,
    decreases parts.len(),
{
    if parts.len() > 0 {
        let others = parts.drop_first();
        lemma_classify_all_each(others);
        assert forall|i: int| 0 <= i < others.len() implies others[i] == parts[i + 1] by {}
        match classify(parts[0]) {
            Ok(token) => {
                match classify_all(others) {
                    Ok(more) => {
                        let tokens = seq![token] + more;
                        assert forall|i: int| 0 <= i < parts.len() implies #[trigger] classify(
                            parts[i],
                        ) == Ok::<Token, TokenizeError>(tokens[i]) by {
                            if i > 0 {
                                assert(parts[i] == others[i - 1]);
                            }
                        }
                    },
                    Err(e) => {
                        let k = choose|k: int|
                            0 <= k < others.len() && #[trigger] classify(others[k]) == Err::<
                                Token,
                                TokenizeError,
                            >(e) && forall|j: int|
                                0 <= j < k ==> (#[trigger] classify(others[j])) is Ok;
                        assert forall|j: int| 0 <= j < k + 1 implies (#[trigger] classify(
                            parts[j],
                        )) is Ok by {
                            if j > 0 {
                                assert(parts[j] == others[j - 1]);
                            }
                        }
                    },
                }
            },
            Err(_) => {},
        }
    }
}

/// The tokens of an input are as many as its fragments, and the token at
/// each position is that of the fragment at the same position: nothing is
/// added, dropped, merged or moved. An input has tokens exactly if each of
/// its fragments has one; otherwise it has the failure of its leftmost
/// fragment that has none.
pub proof fn lemma_tokenize_each(s: Seq<char>)
    ensures
        tokenize(s) is Ok <==> forall|i: int|
            0 <= i < fragments(s).len() ==> (#[trigger] classify(fragments(s)[i])) is Ok,
        tokenize(s) matches Ok(tokens) ==> tokens.len() == fragments(s).len() && forall|i: int|
            0 <= i < tokens.len() ==> #[trigger] classify(fragments(s)[i]) == Ok::<
                Token,
                TokenizeError,
            >(tokens[i]),
        tokenize(s) matches Err(e) ==> exists|i: int|
            0 <= i < fragments(s).len() && #[trigger] classify(fragments(s)[i]) == Err::<
                Token,
                TokenizeError,
            >(e) && forall|j: int| 0 <= j < i ==> (#[trigger] classify(fragments(s)[j])) is Ok,
{
    lemma_classify_all_each(fragments(s));
}

/// Where an input has tokens, they are one more than it has spaces.
pub proof fn lemma_tokenize_len(s: Seq<char>)
    ensures
        tokenize(s) matches Ok(tokens) ==> tokens.len() == separator_count(s) + 1,
{
    lemma_classify_all_each(fragments(s));
    lemma_fragments_len(s);
}

/// The tokens of two lists of fragments, one after the other.
pub proof fn lemma_classify_all_concat(a: Seq<Seq<char>>, b: Seq<Seq<char>>)
    ensures
        classify_all(a + b) == match classify_all(a) {
            Ok(tokens) => prepend(tokens, classify_all(b)),
            Err(e) => Err(e),
        },
    decreases a.len(),
{
    if a.len() > 0 {
        let others = a.drop_first();
        lemma_classify_all_concat(others, b);
        assert((a + b).drop_first() =~= others + b);
        if classify(a[0]) is Ok && classify_all(others) is Ok && classify_all(b) is Ok {
            let first = seq![classify(a[0])->Ok_0];
            let mid = classify_all(others)->Ok_0;
            let last = classify_all(b)->Ok_0;
            assert(first + (mid + last) =~= (first + mid) + last);
        }
    }
}

/// Each fragment is classified on its own: the tokens of two inputs with a
/// space between them are the tokens of the first and then those of the
/// second, and the whole fails where either does, the first one first.
pub proof fn lemma_tokenize_concat(a: Seq<char>, b: Seq<char>)
    ensures
        tokenize(a + seq![' '] + b) == match tokenize(a) {
            Ok(tokens) => prepend(tokens, tokenize(b)),
            Err(e) => Err(e),
        },
{
    lemma_fragments_concat(a, b);
    lemma_classify_all_concat(fragments(a), fragments(b));
}

/// The lexer is a function of its input: two runs on the same input
/// return the same tokens in the same order, or the same failure.
pub proof fn lemma_lex_is_deterministic(
    s: Seq<char>,
    first: Result<Vec<Token>, TokenizeError>,
    second: Result<Vec<Token>, TokenizeError>,
)
    requires
        outcome(first) == tokenize(s),
        outcome(second) == tokenize(s),
    ensures
        outcome(first) == outcome(second),
        first is Ok <==> second is Ok,
        first matches Ok(a) ==> second matches Ok(b) ==> a@ == b@,
        first matches Err(a) ==> second matches Err(b) ==> a == b,
{
}

} // verus!
