pub mod trie;
pub mod bloom;
pub mod fuzzy;
pub mod engine;
pub mod cache;
pub mod calc;
pub mod app_indexer;
pub mod index;
pub mod indexer;
