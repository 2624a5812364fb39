//! Static, flow-insensitive data-flow extraction over a parsed syntax tree.
//!
//! For every variable and parameter binding in a source file, the library
//! determines which other bindings feed data into it (inbound) and which it
//! feeds into (outbound), grouped by lexical scope (file, class, function).
//! The parser itself is an external collaborator: callers hand the library an
//! already-built [`ast::Ast`] (kind names, byte ranges, named-field child
//! access) together with the exact source bytes.

pub mod ast;
pub mod common;
pub mod model;
pub mod java;
