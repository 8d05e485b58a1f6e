//! Front end for a small parenthesised, space-delimited expression language,
//! meant to host combinator terms such as `(s (k a) (i b))`.
//!
//! Source text is read in two stages. The lexer,
//! [`parser::Parser::tokenize`], turns characters into a flat sequence of
//! tokens: `(`, `)`, one token for each space, and one name for each atom. The
//! parser, [`parser::Parser::build_ast`], turns tokens into a nested tree of
//! atoms and lists. [`parser::Parser::parse`] does both.
//!
//! The contracts are stated over mathematical models: a text is a sequence of
//! characters, [`lexing::tokens_of`] says what its tokens are, and
//! [`grammar::spells`] says which tree a token sequence spells out.
//!
//! Decisions that the grammar leaves to the implementation:
//!
//! - Only `(`, `)` and the space are delimiters. Tabs, newlines and every
//!   other character belong to atoms.
//! - An atom is handed out when the delimiter behind it is read. An atom
//!   that the text ends in has no delimiter behind it and yields no token.
//! - A list holds at least one expression: `()` is rejected, as a `)` out of
//!   place.
//! - A text is one expression. More than one is rejected as trailing tokens,
//!   once the whole input has been read without another error.
//! - Input that ends before an expression is complete, or holds none at all,
//!   is unbalanced.

pub mod grammar;
pub mod lexing;
pub mod parser;
pub mod source;
pub mod types;
