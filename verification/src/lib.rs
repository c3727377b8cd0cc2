//! Duplicate-file detection by incremental, memoized content comparison.
//!
//! Files are compared through a size-then-content total order: metadata
//! rejects mismatched sizes before any byte is read, and same-sized files
//! are walked chunk by chunk, comparing SHA-1 digests at each checkpoint and
//! stopping at the first divergence. Each file's digest coverage is grown at
//! most once per byte, however many comparisons the file takes part in.
//! Duplicates are same-device, distinct-path files whose contents are judged
//! equal, and grouping partitions candidates into duplicate sets under that
//! relation.

use vstd::prelude::*;

pub mod content;
pub mod digest;
pub mod entity;
pub mod grouping;
pub mod hashing;
pub mod laws;
pub mod reader;

pub use crate::entity::{compare, is_duplicate, FileContent};
pub use crate::grouping::{check_duplicates, DupeSet};

verus! {

/// Number of bytes pulled from a file and folded into its digest per
/// checkpoint step of the incremental comparison.
pub const CHUNK_SIZE: usize = 4096;

} // verus!
