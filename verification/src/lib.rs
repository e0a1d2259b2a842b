//! A prefix tree over sequences of symbols, stored in a flat arena of nodes.
//!
//! Each node keeps its outgoing edges in a small association list that is
//! searched linearly, and refers to its children by their index in the arena.

pub mod arena;
pub mod laws;
pub mod model;
pub mod trie;
pub mod vec_map;

pub use trie::Node;
pub use trie::Trie;
pub use vec_map::VecMap;
