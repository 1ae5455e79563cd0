//! A small procedural language: a lexer, a parser, a compiler to indexed
//! operations, and an interpreter for the compiled code.
//!
//! The pipeline is `lexer::tokenize`, `parser::parse`, `compile::compile`
//! (or `compile::try_compile`) and `run::execute`. Each stage states what it
//! returns as a function of its input, over the mathematical models that the
//! modules define.
pub mod lexer;
pub mod symbols;
pub mod parser;
pub mod compile;
pub mod run;
