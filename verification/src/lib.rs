//! Flash: a compiled UI language toolchain — lexer, IR, reactive runtime and
//! the native command-buffer codec, with their behaviour proved by Verus.

pub mod ast;
pub mod bytes;
pub mod cli;
pub mod driver;
pub mod grammar;
pub mod ir;
pub mod lexer;
pub mod num;
pub mod parser;
pub mod platform;
pub mod runtime;
pub mod sema;
pub mod span;
