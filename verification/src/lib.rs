//! A two-pass assembler for the Hack machine: it turns the lines of an
//! assembly program into 16-bit binary words, one per instruction.

pub mod assembler;
pub mod error;
pub mod parser;
pub mod symbol_handler;
pub mod text;
pub mod translator;
