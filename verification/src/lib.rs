//! A gadget-chain compiler for return-oriented programming: a small
//! source language of gadget descriptions is parsed, macro-expanded and
//! type-checked, and each requested instruction snippet is located in a
//! binary's executable section to form an address payload.

pub mod ast;
pub mod codegen;
pub mod ir;
pub mod lexer;
pub mod parser;
pub mod symtab;
pub mod typechecker;
pub mod utils;
