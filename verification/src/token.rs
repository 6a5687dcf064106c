//! The tokens a lexer run produces, and the ways a run can fail.

use vstd::prelude::*;

verus! {

/// One classified fragment of the input.
#[derive(PartialEq, Eq, Hash, PartialOrd, Ord, Debug, Clone, Copy, Structural)]
pub enum Token {
    /// An unsigned decimal literal, with its value.
    Int { value: i32 },
    /// The fragment `(`.
    OpenBracket,
    /// The fragment `)`.
    CloseBracket,
    /// The fragment `*`.
    Multiplication,
    /// The fragment `/`.
    Division,
    /// The fragment `+`.
    Addition,
    /// The fragment `-`.
    Subtraction,
    /// Any fragment that is neither a symbol nor made of digits alone.
    UnknownToken,
}

/// Why an input has no token sequence.
#[derive(PartialEq, Eq, Hash, Debug, Clone, Copy, Structural)]
pub enum TokenizeError {
    /// A fragment of digits denotes a number above `i32::MAX`.
    IntegerOverflow,
    /// A fragment is empty: it holds no character that is not a digit, and
    /// no digit to read a number from.
    EmptyLiteral,
}

} // verus!
