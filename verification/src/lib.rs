//! An in-memory associative trie mapping byte-string keys to integer values.
//!
//! Every byte of a key occupies one node level; each node owns its children
//! outright. Deletion is non-recursive: a read-only descent records a replay
//! plan, and a second pass replays that plan top-down through a single
//! mutable path, pruning dead ancestor chains without parent pointers.

pub mod delete;
pub mod iter;
pub mod node;
pub mod trie;
