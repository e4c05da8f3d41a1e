//! A single-pass lexical scanner: it turns a byte slice of ASCII source text
//! into classified tokens (integers, fixed-point numbers, identifiers,
//! reserved words, operator symbols, comments), tracking line numbers for
//! diagnostics.

pub mod types;
pub mod model;
pub mod lexer;
pub mod laws;
