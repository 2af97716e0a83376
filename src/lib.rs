//! Counts the commands of a shell history in a trie of command tokens and
//! reports the most frequent commands or command prefixes under one of three
//! ranking policies.

pub mod history;
pub mod opts;
pub mod rank;
pub mod text;
pub mod trie;
