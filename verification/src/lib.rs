//! A small two-stage assembler: source text is lexed into typed lexems,
//! resolved (pseudo-instruction expansion, label layout, constant folding)
//! into a flat instruction stream, and finally packed bit by bit into a
//! big-endian byte image under the control of a declarative instruction
//! table.
#![verifier::loop_isolation(false)]

pub mod bits;
pub mod byteops;
pub mod codegen;
pub mod config;
pub mod errors;
pub mod instruction_lexer;
pub mod lexer;
pub mod numbers;
pub mod parser;
pub mod pseudo;
pub mod resolve;
pub mod tables;
pub mod text;
