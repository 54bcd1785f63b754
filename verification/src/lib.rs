//! A desk calculator's expression language: lexical analysis of a line of
//! text into tokens, construction of an expression tree that encodes operator
//! precedence, and checked evaluation of the tree into a decimal value or a
//! structured error.

pub mod compute;
pub mod decimal;
pub mod laws;
pub mod parser;
pub mod tokenizer;
