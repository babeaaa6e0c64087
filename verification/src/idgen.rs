//! Identifier generation.
//!
//! Fresh identifiers come from an explicit generator owned by the editing
//! session, so that tests run deterministically and no global mutable state
//! is needed.  A generator hands out the values `1, 2, 3, ...`; the value `0`
//! is reserved as the null identifier and is never produced.

use vstd::prelude::*;

verus! {

/// A monotone source of fresh `u64` identifiers.  Never yields `0`.
pub struct IdGenerator {
    next_value: u64,
}

impl IdGenerator {
    /// The next identifier this generator will hand out.
    pub closed spec fn next(&self) -> u64 {
        self.next_value
    }

    /// A generator is well formed while it still has identifiers to give.
    pub open spec fn wf(&self) -> bool {
        1 <= self.next() <= u64::MAX
    }

    /// A new generator, starting at 1.
    pub fn new() -> (r: Self)
        ensures
            r.wf(),
            r.next() == 1,
    {
        IdGenerator { next_value: 1 }
    }

    /// Hand out the next identifier and advance.
    pub fn fresh(&mut self) -> (r: u64)
        requires
            old(self).wf(),
            old(self).next() < u64::MAX,
        ensures
            r == old(self).next(),
            final(self).next() == old(self).next() + 1,
            final(self).wf(),
            r != 0,
    {
        let r = self.next_value;
        self.next_value = self.next_value + 1;
        r
    }
}

} // verus!
