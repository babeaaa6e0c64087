//! Convenience constructors for recorded operations, one per semantic edit
//! kind.

use crate::entity::{Entity, EntityId};
use crate::geometry::Geometry;
use crate::history::{Operation, OperationId, OperationType};
use crate::idgen::IdGenerator;
use crate::math::{Point2, Vector2};
use crate::parametric::BooleanOp;
use vstd::prelude::*;

verus! {

/// An operation recording that `entity` was created.
pub fn create_entity(ids: &mut IdGenerator, entity: Entity, description: String) -> (r: Operation)
    requires
        old(ids).wf(),
        old(ids).next() < u64::MAX,
    ensures
        r.id == OperationId(old(ids).next()),
        !r.id.spec_is_null(),
        r.operation_type == (OperationType::CreateEntity { entity }),
        r.description == description,
        r.can_undo,
        r.dependencies@ == Seq::<OperationId>::empty(),
        r.affected_entities@ == Seq::<EntityId>::empty(),
        final(ids).wf(),
        final(ids).next() == old(ids).next() + 1,
{
    Operation::new(ids, OperationType::CreateEntity { entity }, description)
}

/// An operation recording that an entity was deleted.
pub fn delete_entity(
    ids: &mut IdGenerator,
    entity_id: EntityId,
    previous_entity: Option<Entity>,
    description: String,
) -> (r: Operation)
    requires
        old(ids).wf(),
        old(ids).next() < u64::MAX,
    ensures
        r.id == OperationId(old(ids).next()),
        !r.id.spec_is_null(),
        r.operation_type == (OperationType::DeleteEntity { entity_id, previous_entity }),
        r.description == description,
        r.can_undo,
        r.dependencies@ == Seq::<OperationId>::empty(),
        r.affected_entities@ == Seq::<EntityId>::empty(),
        final(ids).wf(),
        final(ids).next() == old(ids).next() + 1,
{
    Operation::new(ids, OperationType::DeleteEntity { entity_id, previous_entity }, description)
}

/// An operation recording that an entity's geometry was replaced.
pub fn modify_entity(
    ids: &mut IdGenerator,
    entity_id: EntityId,
    previous_geometry: Geometry,
    new_geometry: Geometry,
    description: String,
) -> (r: Operation)
    requires
        old(ids).wf(),
        old(ids).next() < u64::MAX,
    ensures
        r.id == OperationId(old(ids).next()),
        !r.id.spec_is_null(),
        r.operation_type == (OperationType::ModifyEntity {
            entity_id,
            previous_geometry,
            new_geometry,
        }),
        r.description == description,
        r.can_undo,
        r.dependencies@ == Seq::<OperationId>::empty(),
        r.affected_entities@ == Seq::<EntityId>::empty(),
        final(ids).wf(),
        final(ids).next() == old(ids).next() + 1,
{
    Operation::new(
        ids,
        OperationType::ModifyEntity { entity_id, previous_geometry, new_geometry },
        description,
    )
}

/// An operation recording that a set of entities moved by `offset`.
pub fn move_entities(
    ids: &mut IdGenerator,
    entity_ids: Vec<EntityId>,
    offset: Vector2,
    previous_positions: Vec<Point2>,
    description: String,
) -> (r: Operation)
    requires
        old(ids).wf(),
        old(ids).next() < u64::MAX,
    ensures
        r.id == OperationId(old(ids).next()),
        !r.id.spec_is_null(),
        r.operation_type == (OperationType::MoveEntities {
            entity_ids,
            offset,
            previous_positions,
        }),
        r.description == description,
        r.can_undo,
        r.dependencies@ == Seq::<OperationId>::empty(),
        r.affected_entities@ == Seq::<EntityId>::empty(),
        final(ids).wf(),
        final(ids).next() == old(ids).next() + 1,
{
    Operation::new(
        ids,
        OperationType::MoveEntities { entity_ids, offset, previous_positions },
        description,
    )
}

/// An operation recording a boolean combination of two entities.
pub fn boolean_operation(
    ids: &mut IdGenerator,
    operation: BooleanOp,
    entity1: EntityId,
    entity2: EntityId,
    result_entities: Vec<Entity>,
    previous_entities: Vec<Entity>,
    description: String,
) -> (r: Operation)
    requires
        old(ids).wf(),
        old(ids).next() < u64::MAX,
    ensures
        r.id == OperationId(old(ids).next()),
        !r.id.spec_is_null(),
        r.operation_type == (OperationType::BooleanOperation {
            operation,
            entity1,
            entity2,
            result_entities,
            previous_entities,
        }),
        r.description == description,
        r.can_undo,
        r.dependencies@ == Seq::<OperationId>::empty(),
        r.affected_entities@ == Seq::<EntityId>::empty(),
        final(ids).wf(),
        final(ids).next() == old(ids).next() + 1,
{
    Operation::new(
        ids,
        OperationType::BooleanOperation {
            operation,
            entity1,
            entity2,
            result_entities,
            previous_entities,
        },
        description,
    )
}

/// A composite operation recording several sub-operations as one undo step.
pub fn group_operation(
    ids: &mut IdGenerator,
    name: String,
    operations: Vec<Operation>,
    description: String,
) -> (r: Operation)
    requires
        old(ids).wf(),
        old(ids).next() < u64::MAX,
    ensures
        r.id == OperationId(old(ids).next()),
        !r.id.spec_is_null(),
        r.operation_type == (OperationType::GroupOperation { name, operations }),
        r.description == description,
        r.can_undo,
        r.dependencies@ == Seq::<OperationId>::empty(),
        r.affected_entities@ == Seq::<EntityId>::empty(),
        final(ids).wf(),
        final(ids).next() == old(ids).next() + 1,
{
    Operation::new(ids, OperationType::GroupOperation { name, operations }, description)
}

} // verus!
