//! Code generation for a small expression language: integer literals,
//! variables, four arithmetic operators, assignments and print statements.
//!
//! A program is lowered either to assembly text for a stack machine
//! ([`jvm`]) or to a register-style intermediate representation ([`llvm`]).
pub mod agreement;
pub mod ast;
pub mod error;
pub mod jvm;
pub mod llvm;
pub mod semantics;
pub mod text;
