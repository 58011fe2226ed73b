//! A fault-tolerant JSON reader: a pull-based lexer and a recursive-descent
//! parser that collects diagnostics instead of stopping at the first error.
//! Unquoted barewords are accepted as strings.
pub mod error;
pub mod grammar;
pub mod lexer;
pub mod parser;
pub mod token;
pub mod value;
