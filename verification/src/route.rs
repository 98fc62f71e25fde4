//! Route patterns and the trie they are stored in.

pub mod node;
pub mod path;
pub mod route;
