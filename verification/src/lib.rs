//! A compressed-path adaptive radix index over page-allocated node slots.
//!
//! * [`codec`]: the packed six-byte pointer and its fields.
//! * [`skiplist`]: an ordered multi-level list, used as the free-space index.
//! * [`page`]: fixed-size pages, slot carving and release, and the pool.
//! * [`table`]: the child tables of the node size classes.
//! * [`node`]: the four node size classes behind one operation set.
//! * [`record`]: the wire form of a node.
//! * [`art`]: the radix index itself: insert, search and delete.
//! * [`trie`]: a plain trie with one-byte edges.
pub mod codec;
pub mod skiplist;
pub mod page;
pub mod table;
pub mod node;
pub mod record;
pub mod art;
pub mod trie;
