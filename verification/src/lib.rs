//! A persistent, log-structured key-value store.
//!
//! The store keeps its state as a sequence of append-only log segments, each a
//! byte sequence of self-delimiting JSON records.  An in-memory index maps
//! every live key to the byte range of its most recent `Set` record.  Replay
//! of the segments in ascending identifier order reconstructs the index, and
//! compaction rewrites the live records into a fresh segment, bounding space.
//!
//! The engine itself operates on in-memory segment contents; reading the
//! segment files from a store directory and mirroring appends back to disk is
//! left to the embedding program.

pub mod codec;
pub mod error;
pub mod index;
pub mod kv;
pub mod replay;

pub use codec::Command;
pub use error::ErrorKind;
pub use error::KvsError;
pub use index::CmdPos;
pub use kv::log_path;
pub use kv::parse_log_name;
pub use kv::KvStore;
pub use kv::MAX_STORE_SZ;
pub use replay::Segment;
