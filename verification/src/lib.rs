//! A small concatenative language: one line of text is lexed, grouped into
//! nested values and reduced against a table of words.
//!
//! Every executable function states its result over the mathematical model
//! of [`value::Value`] and the pure functions beside it.

pub mod value;
pub mod text;
pub mod lexer;
pub mod parser;
pub mod word;
pub mod call;
pub mod session;
pub mod callstack;
pub mod eval;
pub mod laws;
