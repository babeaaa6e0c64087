//! Dimension style settings: arrow heads and text placement.

use vstd::prelude::*;

verus! {

/// Arrow head drawn at the end of a dimension line.
#[derive(Debug, Clone, Copy, PartialEq, Eq, Structural, Default)]
pub enum ArrowType {
    #[default]
    ClosedFilled,
    ClosedBlank,
    Open,
    Dot,
    DotSmall,
    DotBlank,
    Origin,
    RightAngle,
    Oblique,
    NoArrow,
    ArchitecturalTick,
    Integral,
}

/// Horizontal placement of dimension text.
#[derive(Debug, Clone, Copy, PartialEq, Eq, Structural, Default)]
pub enum DimTextAlignment {
    #[default]
    Center,
    Left,
    Right,
    Above,
    Outside,
}

/// Vertical placement of dimension text.
#[derive(Debug, Clone, Copy, PartialEq, Eq, Structural, Default)]
pub enum DimTextVertical {
    #[default]
    Centered,
    Above,
    Outside,
    JIS,
}

} // verus!
