//! Sorts the trait names inside source-level `derive` annotations
//! alphabetically while leaving every other character of the file
//! untouched, except where the reordering itself moves text.

pub mod edits;
pub mod laws;
pub mod modify;
pub mod parse;
pub mod rebuild;
pub mod sort;
pub mod token;
pub mod trusted;

pub use edits::{apply_edits, merge_edits, Edit};
pub use modify::modify_source;
pub use rebuild::reorder_derive_tokens;
pub use parse::ParsedDerive;
pub use sort::sorted_groups;
pub use token::{Tok, TokKind};
