//! In-memory prefix completion: a vocabulary is indexed once, and a query is
//! answered with the entries that begin with it, none of which extends
//! another, capped at a fixed count.

pub mod cell;
pub mod completer;
pub mod error;
pub mod index;
pub mod laws;
pub mod order;
pub mod prefix;
pub mod reduction;
pub mod text;
pub mod trie;
pub mod vocabulary;
