//! An in-memory, lazily populated directory tree over a remote, namespaced
//! resource store, exposing namespaces, resource kinds and individual objects
//! as a four-level hierarchy of nodes with stable, path-derived identifiers.

pub mod content;
pub mod fs;
pub mod ids;
pub mod inode;
