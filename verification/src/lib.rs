//! A Pratt (precedence-climbing) parser for a small expression-oriented
//! scripting language.
//!
//! The crate turns a stream of [`token::Token`]s into a [`program::Program`],
//! or into a [`parser::ParseError`] with the message of the first syntax
//! error.
//!
//! - [`token`]: the tokens and their mathematical view.
//! - [`lexer`]: the token source, which ends in the end-of-input marker.
//! - [`program`]: the syntax tree, its view, and the binding powers.
//! - [`grammar`]: the grammar, as functions from a token stream and a
//!   position to what is read there.
//! - [`steps`]: the rules of the grammar, one step at a time.
//! - [`parser`]: the token cursor and the verified parsing routines.
//! - [`laws`]: precedence, associativity, grouping and other facts that
//!   hold of the grammar.
//! - [`locality`]: where a construct ends, and which tokens its reading
//!   depends on.
//! - [`roundtrip`]: writing a tree out as tokens and reading it back.

pub mod grammar;
pub mod laws;
pub mod lexer;
pub mod locality;
pub mod parser;
pub mod program;
pub mod roundtrip;
pub mod steps;
pub mod token;
