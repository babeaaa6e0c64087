//! Statistics of the double-buffered entity store.
//!
//! The store itself lives with the renderer; only its bookkeeping record is
//! part of the core data model.  Times are microseconds since the Unix epoch.

use vstd::prelude::*;

verus! {

/// Counters describing the state of the double-buffered entity store.
#[derive(Debug, Clone, Default)]
pub struct BufferStats {
    /// Version of the render buffer.
    pub render_version: u64,
    /// Version of the edit buffer.
    pub edit_version: u64,
    /// How many times the buffers were swapped.
    pub swap_count: u64,
    /// When the buffers were last swapped.
    pub last_swap_time: Option<u64>,
}

} // verus!
