//! Parametric modelling tokens referenced by recorded operations.
//!
//! The history engine treats constraints and variables as opaque values: it
//! stores them inside operations so that an edit can be undone, but never
//! evaluates them.

use crate::entity::EntityId;
use vstd::prelude::*;

verus! {

/// Kind of a boolean combination of two entities.
#[derive(Debug, Clone, Copy, PartialEq, Eq, Structural)]
pub enum BooleanOp {
    Union,
    Intersection,
    Difference,
}

/// Identifier of a geometric constraint.
#[derive(Debug, Clone, Copy, PartialEq, Eq, Structural)]
pub struct ConstraintId(pub u64);

impl ConstraintId {
    pub fn new(id: u64) -> (r: Self)
        ensures
            r == ConstraintId(id),
    {
        ConstraintId(id)
    }
}

/// Identifier of a named parametric variable.
#[derive(Debug, Clone, Copy, PartialEq, Eq, Structural)]
pub struct VariableId(pub u64);

impl VariableId {
    pub fn new(id: u64) -> (r: Self)
        ensures
            r == VariableId(id),
    {
        VariableId(id)
    }
}

/// A geometric constraint between entities, carried opaquely.
/// The value is in integer document units.
#[derive(Debug, Clone, PartialEq, Eq)]
pub struct Constraint {
    pub id: ConstraintId,
    pub entities: Vec<EntityId>,
    pub value: i64,
}

} // verus!
