//! The front-end of the control-program language.
//!
//! - `ast`: the syntax tree, the typing rule and desugaring.
//! - `grammar`: the surface syntax, as functions from bytes to trees.
//! - `parser`: the functions that compute what the grammar says.
//! - `whitespace`: whitespace does not matter between bytes that no token
//!   joins.
//! - `boundary`: what was read stays read, and whitespace does not matter
//!   wherever a token ends.
//! - `source`: trees written out as text, and read back.
//! - `reserved`: reserved names are refused wherever they are read.

pub mod ast;
pub mod boundary;
pub mod grammar;
pub mod parser;
pub mod reserved;
pub mod source;
pub mod whitespace;
