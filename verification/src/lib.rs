//! Lexical front end of a small interpreted language: turns raw source text
//! into a flat sequence of typed tokens, accumulating non-fatal lexical
//! errors in a diagnostics sink along the way.

pub mod error;
pub mod lox;
pub mod model;
pub mod scanner;
pub mod token;
