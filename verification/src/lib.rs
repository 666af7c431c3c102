//! Language tooling for the Lox programming language: a lexer and parser, a
//! resolver and a tree-walking interpreter, and a bytecode compiler with a
//! garbage-collected virtual machine.

pub mod allocator;
pub mod ast;
pub mod chunk;
pub mod compiler;
pub mod debug;
pub mod double;
pub mod collections;
pub mod error;
pub mod gc;
pub mod host;
pub mod html;
pub mod lexer;
pub mod object;
pub mod op;
pub mod parser;
pub mod playground;
pub mod resolver;
pub mod semantics;
pub mod value;
pub mod vm;

pub mod interpreter;
