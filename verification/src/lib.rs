//! Core engine of a 2D CAD editor, centred on its operation history.
//!
//! The heart of the crate is [`history`]: every user-visible edit is recorded
//! as an immutable [`history::Operation`] and organised into a branching
//! [`history::HistoryTree`] that supports linear undo/redo, time travel to any
//! recorded state, named branches and automatic compression of redundant
//! consecutive edits.  The surrounding modules hold the identifier types,
//! value snapshots and bookkeeping structures that operations carry.
//!
//! Geometry is carried as opaque snapshots: the history engine stores and
//! returns these values but never interprets them, so coordinates are plain
//! integer document units throughout.

use vstd::prelude::*;

pub mod block;
pub mod buffer;
pub mod dimstyle;
pub mod entity;
pub mod geometry;
pub mod grip;
pub mod history;
pub mod idgen;
pub mod laws;
pub mod layer;
pub mod layout;
pub mod math;
pub mod operations;
pub mod parametric;
pub mod performance;
pub mod properties;
pub mod text;
pub mod units;

verus! {

} // verus!
