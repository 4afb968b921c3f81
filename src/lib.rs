//! A compiler for a small concatenative, stack-based language: lexing,
//! parsing into a tree, constant folding and lowering into a flat
//! stack-machine instruction sequence, and generation of x86-64 assembly.

pub mod span;
pub mod textbuf;
pub mod lexer;
pub mod hir;
pub mod lir;
pub mod eval;
pub mod emit;
