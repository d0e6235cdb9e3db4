//! A case-insensitive overlay filesystem core: path folding, the virtual
//! file tree that merges several real directories, the log of visible
//! deletions and renames with its cache file encoding, the decisions of the
//! filesystem adapter, and the small text utilities of the mod manager
//! around it.
pub mod path;
pub mod node;
pub mod graph;
pub mod tree;
pub mod transform;
pub mod codec;
pub mod text;
pub mod notice;
pub mod config;
pub mod adapter;
