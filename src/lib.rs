//! Word-prefix search over a catalog of Unicode character names.
//!
//! A catalog of entries is indexed by the words of their names in a trie;
//! a query term finds every entry with a word that starts with it, and the
//! matches of several terms are combined by union or by intersection.
pub mod builder;
pub mod catalog;
pub mod category;
pub mod laws;
pub mod row;
pub mod search;
pub mod trie;

pub use builder::Trie;
pub use catalog::{UnicodeDefinition, index_catalog};
pub use category::UnicodeGeneralCategory;
pub use row::{RowError, build_trie, parse_row};
pub use search::{SearchResult, search_and, search_or};
pub use trie::{FlatTrie, find};
