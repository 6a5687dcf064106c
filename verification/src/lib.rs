//! A lexer for fully parenthesised prefix arithmetic such as `( + 2 2 )`.
//!
//! The input is cut at every single space into fragments, and each fragment
//! is classified on its own into one [`Token`]: a bracket, an operator, an
//! unsigned decimal literal that fits an `i32`, or unknown. A fragment of
//! digits that has no such value, because it is empty or too large, makes
//! the whole run fail with a [`TokenizeError`].
//!
//! What the fragments of an input are, and what the token of a fragment is,
//! is defined on sequences of characters by [`fragments`] and [`classify`].
//! [`lex`] is proved to return exactly [`tokenize`] of its input, and the
//! laws that hold of these functions are proved beside them.
//!
//! - [`token`]: the tokens and the failures.
//! - [`fragment`]: cutting at spaces.
//! - [`literal`]: digits and their value.
//! - [`lexer`]: classifying fragments, and the lexer itself.
//! - [`encoding`]: how the bytes that are read relate to the characters
//!   that the results are stated over.

pub mod encoding;
pub mod fragment;
pub mod lexer;
pub mod literal;
pub mod token;

pub use fragment::{fragments, split_at_space};
pub use lexer::{classify, lex, lex_fragment, tokenize};
pub use literal::{decimal_value, decode, is_digits, is_int, to_int};
pub use token::{Token, TokenizeError};
