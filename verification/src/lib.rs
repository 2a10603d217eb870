//! A durable, log-structured key-value store with a length-prefixed wire
//! protocol.
//!
//! The storage engine keeps every mutation as an appended record in a
//! generation-numbered segment, rebuilds its in-memory index by replaying
//! those records, and compacts stale records into a fresh generation once
//! enough dead bytes accumulate.  The engine here works on the segment
//! bytes themselves; reading and writing the actual files is left to the
//! surrounding program.

pub mod codec;
pub mod common;
pub mod error;
pub mod server;
pub mod store;
pub mod wal;
