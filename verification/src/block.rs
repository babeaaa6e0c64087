//! Block identification.
//!
//! A block is a reusable group of entities; this module holds its identifier
//! type.

use vstd::prelude::*;

verus! {

/// Identifier of a block definition.
#[derive(Debug, Clone, Copy, PartialEq, Eq, Structural)]
pub struct BlockId(pub u64);

impl BlockId {
    pub fn new(id: u64) -> (r: Self)
        ensures
            r == BlockId(id),
    {
        BlockId(id)
    }
}

} // verus!
