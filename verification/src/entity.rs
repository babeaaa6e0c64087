//! Entity identification.
//!
//! Entities use a generational identifier so that undo/redo can distinguish
//! different incarnations of the same slot.

use crate::geometry::Geometry;
use crate::idgen::IdGenerator;
use crate::properties::Properties;
use vstd::prelude::*;

verus! {

/// Unique identifier of an entity, with a generation counter.
/// The identifier 0 is the null sentinel.
#[derive(Debug, Clone, Copy, PartialEq, Eq, Structural)]
pub struct EntityId {
    pub id: u64,
    pub generation: u32,
}

impl EntityId {
    /// A fresh identifier drawn from the session's generator, at generation 0.
    pub fn new(ids: &mut IdGenerator) -> (r: Self)
        requires
            old(ids).wf(),
            old(ids).next() < u64::MAX,
        ensures
            r == (EntityId { id: old(ids).next(), generation: 0u32 }),
            final(ids).next() == old(ids).next() + 1,
            final(ids).wf(),
            !r.spec_is_null(),
    {
        EntityId { id: ids.fresh(), generation: 0 }
    }

    /// An identifier with explicit parts (used when loading a document).
    pub fn from_raw(id: u64, generation: u32) -> (r: Self)
        ensures
            r == (EntityId { id, generation }),
    {
        EntityId { id, generation }
    }

    /// Whether this is the null identifier.
    pub open spec fn spec_is_null(&self) -> bool {
        self.id == 0
    }

    /// Whether this is the null identifier.
    pub fn is_null(&self) -> (r: bool)
        ensures
            r == self.spec_is_null(),
    {
        self.id == 0
    }

    /// The null identifier.
    pub fn null() -> (r: Self)
        ensures
            r == (EntityId { id: 0u64, generation: 0u32 }),
            r.spec_is_null(),
    {
        EntityId { id: 0, generation: 0 }
    }
}

/// A CAD entity: a geometry snapshot plus visual properties.
#[derive(Debug, Clone, PartialEq, Eq)]
pub struct Entity {
    pub id: EntityId,
    pub geometry: Geometry,
    pub properties: Properties,
    pub layer_id: EntityId,
    pub visible: bool,
    pub locked: bool,
}

impl Entity {
    /// A new visible, unlocked entity on the null layer, with default
    /// properties and a fresh identifier.
    pub fn new(ids: &mut IdGenerator, geometry: Geometry) -> (r: Self)
        requires
            old(ids).wf(),
            old(ids).next() < u64::MAX,
        ensures
            r.id == (EntityId { id: old(ids).next(), generation: 0u32 }),
            r.geometry == geometry,
            r.properties == (Properties {
                color: crate::properties::Color { r: 0, g: 0, b: 0, a: 0 },
                line_type: crate::properties::LineType::ByLayer,
                line_weight: crate::properties::LineWeight::ByLayer,
                transparency: 0,
            }),
            r.layer_id.spec_is_null(),
            r.visible,
            !r.locked,
            final(ids).next() == old(ids).next() + 1,
            final(ids).wf(),
    {
        Entity {
            id: EntityId::new(ids),
            geometry,
            properties: Properties::default(),
            layer_id: EntityId { id: 0, generation: 0 },
            visible: true,
            locked: false,
        }
    }

    /// The same entity on the given layer.
    pub fn with_layer(self, layer_id: EntityId) -> (r: Self)
        ensures
            r == (Entity { layer_id, ..self }),
    {
        Entity { layer_id, ..self }
    }

    /// The same entity with the given properties.
    pub fn with_properties(self, properties: Properties) -> (r: Self)
        ensures
            r == (Entity { properties, ..self }),
    {
        Entity { properties, ..self }
    }
}

} // verus!
