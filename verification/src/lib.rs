//! A tiny interpreter for the "ill" scripting language: a character-stream
//! scanner with source-position tracking, a register table built from `+name;`
//! declarations, an opcode catalog, an instruction scanner/validator for
//! `$name(args){ ... }` blocks, and a recursive evaluator for the builtin
//! opcodes with global registers and per-call local scopes.

pub mod model;
pub mod opcodes;
pub mod interpreter;
pub mod scan;
pub mod text;
