//! What vesper makes of the dusk compiler's output: tokens, a syntax tree, and the
//! reports of its passes.
//!
//! The front end itself is called from outside. Its tokens, tree, and reports come
//! in as the plain types of [`token`], [`ast`], and [`analyze`], so when the front
//! end changes shape, only their conversion has to follow.

pub mod analyze;
pub mod ast;
pub mod builtins;
pub mod guard;
pub mod render;
pub mod signature;
pub mod sort;
pub mod spelling;
pub mod symbols;
pub mod token;
pub mod tokens;

pub use analyze::{semantic_diagnostics, syntax_diagnostics, FileDiagnostics};
pub use builtins::is_primitive;
pub use symbols::{definition, document_symbols, hover, identifiers, name_at, Symbol};
pub use tokens::{legend, semantic_tokens};
