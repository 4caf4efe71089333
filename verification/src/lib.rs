//! State declarations for a symbolic-execution engine: a small
//! mini-language of initial assignments (`rax = 0x10`, `0x1000 = SYM`)
//! and the one-time bootstrap of an execution context from them.

pub mod bootstrap;
pub mod parse;
