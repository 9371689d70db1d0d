//! A small virtual machine for a line-oriented, assembly-like language.
//!
//! A textual program is parsed into a set of named routines (ordered
//! instruction sequences), which a stack-based interpreter executes over
//! three 8-bit registers and a growable byte memory with pointer
//! indirection.

pub mod code;
pub mod codec;
pub mod interpreter;
pub mod laws;
pub mod parser;
