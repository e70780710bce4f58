//! Compact binary snapshot diffs for a versioned, tree-structured state.
//!
//! A `StateDiff` records which fixed-width tokens a snapshot adds and
//! removes relative to an optional parent snapshot.  The codec packs a
//! diff into one byte blob using an in-band 8-byte all-zero sentinel to
//! separate the added region from the removed region, and the store
//! keeps blobs keyed by the snapshot id's big-endian representation.

pub mod codec;
pub mod endian;
pub mod error;
pub mod store;
