//! Layer management errors.

use vstd::prelude::*;

verus! {

/// Why a layer operation was refused.
#[derive(Debug, Clone, PartialEq, Eq)]
pub enum LayerError {
    /// Layer 0 can never be deleted.
    CannotDeleteLayerZero,
    /// The current layer cannot be deleted.
    CannotDeleteCurrentLayer,
    /// Layer 0 can never be renamed.
    CannotRenameLayerZero,
    /// No layer has the given name.
    LayerNotFound(String),
    /// A layer with the given name already exists.
    LayerAlreadyExists(String),
}

impl LayerError {
    /// A short description of the error.
    pub fn message(&self) -> (r: &'static str)
        ensures
            (self is CannotDeleteLayerZero) ==> r@ == "Cannot delete layer 0"@,
            (self is CannotDeleteCurrentLayer) ==> r@ == "Cannot delete current layer"@,
            (self is CannotRenameLayerZero) ==> r@ == "Cannot rename layer 0"@,
            (self is LayerNotFound) ==> r@ == "Layer not found"@,
            (self is LayerAlreadyExists) ==> r@ == "Layer already exists"@,
    {
        match self {
            LayerError::CannotDeleteLayerZero => "Cannot delete layer 0",
            LayerError::CannotDeleteCurrentLayer => "Cannot delete current layer",
            LayerError::CannotRenameLayerZero => "Cannot rename layer 0",
            LayerError::LayerNotFound(_) => "Layer not found",
            LayerError::LayerAlreadyExists(_) => "Layer already exists",
        }
    }
}

} // verus!
