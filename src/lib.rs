//! An in-memory B-tree over `usize` keys. Search descends from the root; insertion
//! splits full nodes on the way down; deletion rotates or merges thin nodes on the
//! way down. Every node but the root keeps `t - 1` to `2t - 1` keys and every leaf
//! lies at the same depth.
pub mod node;
pub mod btree;
pub mod laws;

pub use btree::{BTree, fill_btree};
pub use node::Node;
