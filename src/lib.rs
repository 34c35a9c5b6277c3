//! Persistent per-directory snapshots of version-control status.
//!
//! The library holds the codec of the raw "count code" status grammar, the
//! canonical form of directory paths, and a durable store of status records.

pub mod text;
pub mod codec;
pub mod store;
pub mod retry;
