//! Core of a seek-optimized directory tree walker: a CSCAN pending-directory
//! scheduler, an inode-sorted stat batcher, and the traversal engine that
//! drives them while counting and sizing matched entries.
//!
//! All filesystem I/O (directory listing, extent-map lookups, metadata
//! queries) is performed by the embedding program, which feeds plain values
//! into the engine and carries out the actions it decides on.

pub mod batch;
pub mod engine;
pub mod file_type;
pub mod pending;
pub mod policy;
