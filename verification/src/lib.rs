//! The verified logic of `rundown`.
//!
//! The core is a reader for a small S-expression notation: atoms, bare or
//! quoted, and lists in parentheses. [`sexp::parse_many`] reads a text into a
//! tree or names the first error with its byte offset in the text. It works in
//! two stages, [`tokenizer`] and [`parser`], over the model of UTF-8 text in
//! [`text`]; [`escape`] resolves the bodies of string literals. What holds of
//! every text beyond the contracts is proved in [`lexemes`], [`balance`] and
//! [`structure`].
//!
//! [`markdown`] splits a markdown text into its code blocks and the literal
//! text between them.

pub mod balance;
pub mod escape;
pub mod lexemes;
pub mod markdown;
pub mod parser;
pub mod sexp;
pub mod structure;
pub mod text;
pub mod tokenizer;
