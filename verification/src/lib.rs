//! Priority-ordered, size-bounded chunking of repository text.
//!
//! The crate scores each file with static pattern rules plus a recency
//! signal, stably sorts the file set ascending by priority, and packs the
//! contents into size-bounded chunks, splitting oversized files across
//! consecutive chunks.

use vstd::prelude::*;

pub mod config;
pub mod digits;
pub mod order;
pub mod pack;
pub mod pack_laws;
pub mod pathnorm;
pub mod priority;
pub mod recency;
pub mod scan;
pub mod size;

verus! {

/// The default chunk capacity when none is configured.
pub const DEFAULT_CHUNK_SIZE: usize = 10 * 1024 * 1024;

} // verus!
