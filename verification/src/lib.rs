//! Vesper is a language server for the dusk programming language. It shows the
//! diagnostics, highlighting, and navigation that come from the same lexer, parser,
//! and checker that build a program.
//!
//! This library is what the server decides and computes: where an offset sits in a
//! document, how tokens are colored, what a document declares, which pass runs next
//! and what its reports look like to an editor, what is published and when it is
//! stale. It works on plain values. Reading files, running the compiler and speaking
//! the protocol happen around it.

pub mod compiler;
pub mod config;
pub mod document;
pub mod memory;
pub mod position;
pub mod protocol;
pub mod server;
pub mod store;
pub mod text;
pub mod workspace;

pub use memory::install_memory_backstop;
pub use server::Backend;
