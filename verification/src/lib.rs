//! A compiler for the eight-symbol tape language: a lexer that keeps only the
//! recognized symbols, a parser that resolves bracket pairs into nested loop
//! nodes, a code generator that lowers the instruction tree to a module of
//! basic blocks over a fixed tape and a movable head, and a direct
//! interpreter that executes the tree against an in-memory tape. Each stage
//! carries a contract pinning its result to a mathematical model; the laws
//! alongside them state when parsing succeeds, how the tree mirrors the
//! bracket structure, and that the generated module computes exactly what the
//! interpreter does.

pub mod ast;
pub mod codegen;
pub mod interp;
pub mod ir;
pub mod lexer;
pub mod parse;
pub mod sim;
