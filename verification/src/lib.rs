//! Lexical scanner for a small dynamically-typed scripting language.
//!
//! The scanner turns a source text into a flat sequence of tokens by
//! maximal-munch tokenization, tracking the 1-based source line for
//! diagnostics.  Its behaviour is pinned down by the mathematical model in
//! [`lexing`]: `Scanner::scan` is proved to return exactly the token
//! sequence (or the lexical error) that [`lexing::scan_spec`] assigns to the
//! source text.

pub mod error;
pub mod lexing;
pub mod scanner;
pub mod token;
