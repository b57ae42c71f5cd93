//! Prefix trees keyed by strings: a map from keys to values and a set of keys,
//! with lookup of a key, lookup of a prefix, and the listing of all keys that
//! begin with a prefix, in ascending order.

pub mod key_order;
mod listing;
mod paths;
pub mod text;
pub mod trie;
pub mod trie_map;

pub use crate::trie::Trie;
