//! An assembler for a small stack machine.
//!
//! A source text is read into a [`ast::Program`] by [`parser::parse_svm`],
//! laid out and resolved in two passes by [`assemble::assemble`], and
//! packaged for output by [`assemble::Blob::encode`].
//!
//! - [`ast`] holds the program representation and the encoding of each
//!   instruction into bytes and label references.
//! - [`lexer`] and [`grammar`] define the source language; [`parser`] reads
//!   it and [`printer`] writes it.
//! - [`assemble`] holds the two passes and the symbol table.
//! - [`laws`] and [`roundtrip`] state and prove what holds of every program:
//!   what the two passes compute, which failure is reported when, and that
//!   printing and parsing undo each other.

pub mod assemble;
pub mod ast;
pub mod grammar;
pub mod laws;
pub mod lexer;
pub mod parser;
pub mod printer;
pub mod roundtrip;
