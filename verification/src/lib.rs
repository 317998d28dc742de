//! A toolchain for a small register machine language: a line lexer and
//! validator, a symbol resolver that turns source lines into typed token
//! streams, a binary bytecode codec for those streams, and an interpreter
//! over a store of named 32-bit registers.

pub mod bytecode;
pub mod interpret;
pub mod loader;
pub mod parser;
