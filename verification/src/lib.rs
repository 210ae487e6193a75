//! Read-only index over a version-control commit graph, stored as one or
//! more chunked binary files.
//!
//! A single file is opened and validated by [`file::GraphFile::new`]; several
//! files form one logical graph through [`graph::Graph`].  All queries after
//! construction are infallible except [`file::GraphFile::lookup`], whose only
//! failure mode is "not found".

use vstd::prelude::*;

pub mod bytes;
pub mod commit;
pub mod file;
pub mod graph;
pub mod id;
pub mod order;
pub mod parse;

pub use commit::CommitData;
pub use file::{GraphFile, LexPosition};
pub use graph::{Graph, GraphPosition};

verus! {

/// Greatest total number of commits a chain of graph files may hold.
///
/// Position values at or above `NO_PARENT` are reserved for the "no parent"
/// sentinel and the extra-edge overflow flag, so a stored position must be
/// strictly below `NO_PARENT`, and `MAX_COMMITS` is `NO_PARENT - 1`.
pub const MAX_COMMITS: u32 = 0x6FFF_FFFF;

/// Sentinel value of a parent field meaning "no parent here".
pub const NO_PARENT: u32 = 0x7000_0000;

/// Width in bytes of a commit id (the legacy 20-byte hash).
pub const SHA1_SIZE: usize = 20;

/// Width in bytes of one commit record: tree id, two parent fields,
/// and the packed generation/commit-time word.
pub const COMMIT_DATA_ENTRY_SIZE: usize = 36;

} // verus!
