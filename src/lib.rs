//! A prefix tree from `char` strings to `i32` values.
pub mod laws;
pub mod trie;

pub use trie::{Trie, TrieNode};
