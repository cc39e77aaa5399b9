//! Cursor-aware code completion over a lexical scope table.
//!
//! Given the text in front of the cursor and the cursor's offset, the
//! library finds the token being typed, decides whether it is a plain
//! identifier or an `alias.member` access, gathers the symbols that are
//! visible there, and returns them deduplicated, ranked and capped.
pub mod completion;
pub mod item;
pub mod project;
pub mod rank;
pub mod symbol;
pub mod text;

pub use crate::completion::CompletionProvider;
pub use crate::item::{CompletionItem, CompletionItemKind};
pub use crate::project::{Import, Module};
pub use crate::symbol::{NodeId, Scope, Symbol, SymbolKind, SymbolTable};
pub use crate::text::{extract_module_member_context, extract_prefix_at_position};
