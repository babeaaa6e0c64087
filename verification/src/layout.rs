//! Paper layouts and viewports: identifier and state types.

use vstd::prelude::*;

verus! {

/// Identifier of a paper layout.
#[derive(Debug, Clone, Copy, PartialEq, Eq, Structural)]
pub struct LayoutId(pub u64);

impl LayoutId {
    pub fn new(id: u64) -> (r: Self)
        ensures
            r == LayoutId(id),
    {
        LayoutId(id)
    }
}

/// Identifier of a viewport inside a layout.
#[derive(Debug, Clone, Copy, PartialEq, Eq, Structural)]
pub struct ViewportId(pub u64);

impl ViewportId {
    pub fn new(id: u64) -> (r: Self)
        ensures
            r == ViewportId(id),
    {
        ViewportId(id)
    }
}

/// Orientation of the paper.
#[derive(Debug, Clone, Copy, PartialEq, Eq, Structural, Default)]
pub enum PaperOrientation {
    Portrait,
    #[default]
    Landscape,
}

/// State of a viewport.
#[derive(Debug, Clone, Copy, PartialEq, Eq, Structural, Default)]
pub enum ViewportStatus {
    /// The model space behind the viewport is being edited.
    Active,
    #[default]
    Inactive,
    /// The viewport settings cannot be changed.
    Locked,
    Hidden,
}

/// Which drawing space is current.
#[derive(Debug, Clone, Copy, PartialEq, Eq, Structural, Default)]
pub enum SpaceType {
    #[default]
    Model,
    /// Paper space of the given layout.
    Paper(LayoutId),
}

} // verus!
