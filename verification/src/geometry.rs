//! Geometry snapshots carried by recorded operations.
//!
//! The history engine records what an edit changed, so an operation carries
//! snapshots of geometry before and after the edit.  The engine itself never
//! interprets a snapshot; coordinates are plain integer document units.

use crate::math::Point2;
use vstd::prelude::*;

verus! {

/// A point.
#[derive(Debug, Clone, Copy, PartialEq, Eq, Structural)]
pub struct Point {
    pub position: Point2,
}

impl Point {
    pub fn new(x: i64, y: i64) -> (r: Self)
        ensures
            r == (Point { position: Point2 { x, y } }),
    {
        Point { position: Point2 { x, y } }
    }
}

/// A line segment.
#[derive(Debug, Clone, Copy, PartialEq, Eq, Structural)]
pub struct Line {
    pub start: Point2,
    pub end: Point2,
}

impl Line {
    pub fn new(start: Point2, end: Point2) -> (r: Self)
        ensures
            r == (Line { start, end }),
    {
        Line { start, end }
    }
}

/// A circle; the radius is in integer document units.
#[derive(Debug, Clone, Copy, PartialEq, Eq, Structural)]
pub struct Circle {
    pub center: Point2,
    pub radius: i64,
}

impl Circle {
    pub fn new(center: Point2, radius: i64) -> (r: Self)
        ensures
            r == (Circle { center, radius }),
    {
        Circle { center, radius }
    }
}

/// A geometry snapshot: the shape data an operation stores so the edit can be
/// undone.  Carried opaquely by the history engine.
#[derive(Debug, Clone, Copy, PartialEq, Eq, Structural)]
pub enum Geometry {
    Point(Point),
    Line(Line),
    Circle(Circle),
}

impl Geometry {
    /// A short name for the kind of shape.
    pub fn kind_name(&self) -> (r: &'static str)
        ensures
            self is Point ==> r@ == "Point"@,
            self is Line ==> r@ == "Line"@,
            self is Circle ==> r@ == "Circle"@,
    {
        match self {
            Geometry::Point(_) => "Point",
            Geometry::Line(_) => "Line",
            Geometry::Circle(_) => "Circle",
        }
    }
}

/// Horizontal alignment of a text entity.
#[derive(Debug, Clone, Copy, PartialEq, Eq, Structural, Default)]
pub enum TextAlignment {
    #[default]
    Left,
    Center,
    Right,
}

/// Kind of a dimension annotation.
#[derive(Debug, Clone, Copy, PartialEq, Eq, Structural, Default)]
pub enum DimensionType {
    #[default]
    Aligned,
    Linear,
    Radius,
    Diameter,
    Angular,
    ArcLength,
    Ordinate,
}

/// Kind of a spline curve.
#[derive(Debug, Clone, Copy, PartialEq, Eq, Structural, Default)]
pub enum SplineType {
    #[default]
    BSpline,
    Nurbs,
    Bezier,
}

/// Arrow head drawn at the end of a leader line.
#[derive(Debug, Clone, Copy, PartialEq, Eq, Structural, Default)]
pub enum ArrowType {
    NoArrow,
    #[default]
    ClosedFilled,
    ClosedBlank,
    Open,
    Dot,
    Circle,
}

} // verus!
