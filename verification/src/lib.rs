//! Durable state of a Raft node: the framed record format, the segmented log,
//! and the index file that catalogs segments, snapshots, membership and hard
//! state. Every function here works on plain bytes and values; the caller
//! owns the files and writes what these functions hand back.

pub mod endian;
pub mod error;
pub mod framing;
pub mod wire;
pub mod model;
pub mod codec;
pub mod catalog;
pub mod rules;
pub mod raftindex;
pub mod manager;
pub mod segment;
pub mod snapshot;
