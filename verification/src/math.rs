//! Plain 2D coordinate values.
//!
//! Coordinates are integer document units: the history engine never performs
//! geometric computation, it only stores and compares these values, and sums
//! displacement vectors when merging consecutive move operations.

use vstd::prelude::*;

verus! {

/// A 2D position in integer document units.
#[derive(Debug, Clone, Copy, PartialEq, Eq, Structural)]
pub struct Point2 {
    pub x: i64,
    pub y: i64,
}

impl Point2 {
    pub fn new(x: i64, y: i64) -> (r: Self)
        ensures
            r == (Point2 { x, y }),
    {
        Point2 { x, y }
    }
}

/// A 2D displacement in integer document units.
#[derive(Debug, Clone, Copy, PartialEq, Eq, Structural)]
pub struct Vector2 {
    pub x: i64,
    pub y: i64,
}

impl Vector2 {
    pub fn new(x: i64, y: i64) -> (r: Self)
        ensures
            r == (Vector2 { x, y }),
    {
        Vector2 { x, y }
    }

    /// Whether the componentwise sum of two vectors fits in `i64`.
    pub open spec fn sum_fits(a: Vector2, b: Vector2) -> bool {
        &&& i64::MIN <= a.x + b.x <= i64::MAX
        &&& i64::MIN <= a.y + b.y <= i64::MAX
    }

    /// Componentwise sum, or `None` when a component overflows.
    pub fn checked_add(self, other: Vector2) -> (r: Option<Vector2>)
        ensures
            Self::sum_fits(self, other) <==> r is Some,
            r matches Some(v) ==> v.x == self.x + other.x && v.y == self.y + other.y,
    {
        let x = self.x.checked_add(other.x);
        let y = self.y.checked_add(other.y);
        match (x, y) {
            (Some(x), Some(y)) => Some(Vector2 { x, y }),
            _ => None,
        }
    }
}

} // verus!
