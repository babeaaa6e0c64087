//! Grip editing: kinds of control points exposed on a shape.

use vstd::prelude::*;

verus! {

/// Kind of a grip point on a geometric shape.
#[derive(Debug, Clone, Copy, PartialEq, Eq, Structural)]
pub enum GripType {
    /// Moves an endpoint.
    Endpoint,
    /// Moves the whole shape or adjusts a curve.
    Midpoint,
    /// Moves a centre point.
    Center,
    /// Adjusts the radius of a circle or arc.
    Quadrant,
    /// A spline control point.
    ControlPoint,
    /// The base point of a block reference.
    BasePoint,
    /// Drives a rotation.
    Rotation,
    /// Drives a scaling.
    Scale,
}

} // verus!
