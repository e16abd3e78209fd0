//! An execution engine for a minimal eight-symbol instruction set over a
//! flat byte tape: a lexical filter with an optional line-comment mode, a
//! bracket validator that precomputes loop jump targets, a peephole
//! run-length optimizer that packs repeated operators into single
//! counted instructions, and the fetch-decode-execute loop itself.

pub mod brackets;
pub mod instr;
pub mod laws;
pub mod lexer;
pub mod optimizer;
pub mod semantics;
pub mod transparency;
pub mod trusted;
pub mod vm;
