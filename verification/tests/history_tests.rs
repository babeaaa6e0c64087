use zcad_core::entity::Entity;
use zcad_core::entity::EntityId;
use zcad_core::geometry::Geometry;
use zcad_core::geometry::Line;
use zcad_core::geometry::Point;
use zcad_core::history::HistoryError;
use zcad_core::history::HistoryTree;
use zcad_core::history::Operation;
use zcad_core::history::OperationId;
use zcad_core::history::OperationType;
use zcad_core::idgen::IdGenerator;
use zcad_core::math::Point2;
use zcad_core::math::Vector2;
use zcad_core::operations::create_entity;
use zcad_core::operations::delete_entity;
use zcad_core::operations::move_entities;
use zcad_core::parametric::VariableId;

fn point_op(ids: &mut IdGenerator, x: i64, y: i64, what: &str) -> Operation {
    let entity = Entity::new(ids, Geometry::Point(Point::new(x, y)));
    create_entity(ids, entity, what.to_string())
}

fn move_op(ids: &mut IdGenerator, targets: Vec<EntityId>, dx: i64, dy: i64) -> Operation {
    move_entities(ids, targets, Vector2::new(dx, dy), Vec::new(), "move".to_string())
}

fn variable_op(ids: &mut IdGenerator, var: u64, from: i64, to: i64) -> Operation {
    Operation::new(
        ids,
        OperationType::ModifyVariable {
            variable_id: VariableId(var),
            previous_value: from,
            new_value: to,
        },
        format!("set to {}", to),
    )
}

#[test]
fn test_history_tree() {
    let mut ids = IdGenerator::new();
    let mut history = HistoryTree::new(100);

    let op1 = point_op(&mut ids, 0, 0, "Create point");
    history.add_operation(&mut ids, op1).unwrap();

    let line = Entity::new(
        &mut ids,
        Geometry::Line(Line::new(Point2::new(0, 0), Point2::new(10, 10))),
    );
    let op2 = create_entity(&mut ids, line, "Create line".to_string());
    history.add_operation(&mut ids, op2).unwrap();

    let current_ops = history.current_operations();
    assert_eq!(current_ops.len(), 2);

    let undone = history.undo();
    assert!(undone.is_some());
    assert_eq!(history.current_operations().len(), 1);

    let redone = history.redo();
    assert!(redone.is_some());
    assert_eq!(history.current_operations().len(), 2);

    let stats = history.stats();
    assert_eq!(stats.total_operations, 2);
    assert_eq!(stats.current_depth, 1);
}

#[test]
fn round_trip_restores_the_sequence() {
    let mut ids = IdGenerator::new();
    let mut history = HistoryTree::new(100);
    let mut recorded = Vec::new();
    for k in 0..3 {
        let op = point_op(&mut ids, k, k, "point");
        recorded.push(op.id);
        history.add_operation(&mut ids, op).unwrap();
    }
    for _ in 0..3 {
        assert!(history.undo().is_some());
    }
    assert_eq!(history.current_operations().len(), 0);
    assert!(history.undo().is_none());
    for _ in 0..3 {
        assert!(history.redo().is_some());
    }
    assert!(history.redo().is_none());
    let after: Vec<OperationId> = history.current_operations().iter().map(|op| op.id).collect();
    assert_eq!(after, recorded);
}

#[test]
fn branch_isolation_returns_to_the_named_node() {
    let mut ids = IdGenerator::new();
    let mut history = HistoryTree::new(100);
    let op_x = point_op(&mut ids, 1, 1, "x");
    let x_id = op_x.id;
    history.add_operation(&mut ids, op_x).unwrap();
    history.create_branch("b".to_string(), x_id).unwrap();
    for k in 0..4 {
        let op = point_op(&mut ids, k, 0, "later");
        history.add_operation(&mut ids, op).unwrap();
    }
    assert_eq!(history.current_operations().len(), 5);
    history.switch_branch("b").unwrap();
    let ops = history.current_operations();
    assert_eq!(ops.len(), 1);
    assert_eq!(ops[ops.len() - 1].id, x_id);
}

#[test]
fn no_redo_after_new_edit() {
    let mut ids = IdGenerator::new();
    let mut history = HistoryTree::new(100);
    let a = point_op(&mut ids, 0, 0, "A");
    history.add_operation(&mut ids, a).unwrap();
    let b = point_op(&mut ids, 1, 0, "B");
    history.add_operation(&mut ids, b).unwrap();
    assert!(history.undo().is_some());
    let c = point_op(&mut ids, 2, 0, "C");
    history.add_operation(&mut ids, c).unwrap();
    assert!(history.redo().is_none());
}

#[test]
fn merge_sums_offsets_and_drops_one_node() {
    let mut ids = IdGenerator::new();
    let mut history = HistoryTree::new(100);
    let target = EntityId::from_raw(7, 0);
    let m1 = move_op(&mut ids, vec![target], 3, 0);
    let m1_id = m1.id;
    let m2 = move_op(&mut ids, vec![target], 0, 4);
    history.add_operation(&mut ids, m1).unwrap();
    history.add_operation(&mut ids, m2).unwrap();
    // a third edit so that neither move is the current node or its parent
    let c = point_op(&mut ids, 0, 0, "C");
    history.add_operation(&mut ids, c).unwrap();
    assert_eq!(history.current_operations().len(), 3);
    history.compress_history(&mut ids).unwrap();
    // the two moves became one node whose offset is the sum
    let ops = history.current_operations();
    assert_eq!(ops.len(), 2);
    let merged = history.find_operation(&m1_id).unwrap();
    match &merged.operation_type {
        OperationType::MoveEntities { offset, .. } => {
            assert_eq!(offset.x, 3);
            assert_eq!(offset.y, 4);
        }
        other => panic!("expected a move, found {:?}", other),
    }
    assert_eq!(history.stats().compression_savings, 1);
}

#[test]
fn merge_keeps_first_previous_value_and_latest_new_value() {
    let mut ids = IdGenerator::new();
    let history = HistoryTree::new(100);
    let v1 = variable_op(&mut ids, 9, 10, 20);
    let v2 = variable_op(&mut ids, 9, 20, 35);
    let merged = history.merge_operations(&mut ids, &v1, &v2).unwrap();
    match merged.operation_type {
        OperationType::ModifyVariable { variable_id, previous_value, new_value } => {
            assert_eq!(variable_id.0, 9);
            assert_eq!(previous_value, 10);
            assert_eq!(new_value, 35);
        }
        other => panic!("expected a variable change, found {:?}", other),
    }
    assert_eq!(merged.timestamp, v2.timestamp);
}

#[test]
fn moves_of_different_entities_do_not_merge() {
    let mut ids = IdGenerator::new();
    let history = HistoryTree::new(100);
    let m1 = move_op(&mut ids, vec![EntityId::from_raw(1, 0)], 3, 0);
    let m2 = move_op(&mut ids, vec![EntityId::from_raw(2, 0)], 0, 4);
    assert!(history.can_merge_operations(&m1, &m2));
    assert!(history.merge_operations(&mut ids, &m1, &m2).is_none());
}

#[test]
fn overflowing_offsets_do_not_merge() {
    let mut ids = IdGenerator::new();
    let history = HistoryTree::new(100);
    let target = EntityId::from_raw(1, 0);
    let m1 = move_op(&mut ids, vec![target], i64::MAX, 0);
    let m2 = move_op(&mut ids, vec![target], 1, 0);
    assert!(history.merge_operations(&mut ids, &m1, &m2).is_none());
}

#[test]
fn unmergeable_pair_is_preserved() {
    let mut ids = IdGenerator::new();
    let mut history = HistoryTree::new(100);
    let entity = Entity::new(&mut ids, Geometry::Point(Point::new(0, 0)));
    let target = entity.id;
    let created = create_entity(&mut ids, entity, "create".to_string());
    let created_id = created.id;
    let deleted = delete_entity(&mut ids, target, None, "delete".to_string());
    let deleted_id = deleted.id;
    history.add_operation(&mut ids, created).unwrap();
    history.add_operation(&mut ids, deleted).unwrap();
    // a third edit so that the pair is not protected by the current node
    let c = point_op(&mut ids, 5, 5, "C");
    history.add_operation(&mut ids, c).unwrap();
    history.compress_history(&mut ids).unwrap();
    assert!(history.find_operation(&created_id).is_some());
    assert!(history.find_operation(&deleted_id).is_some());
    assert_eq!(history.current_operations().len(), 3);
    assert_eq!(history.stats().compression_savings, 0);
}

#[test]
fn depth_accounting_over_a_linear_chain() {
    let mut ids = IdGenerator::new();
    let mut history = HistoryTree::new(100);
    for k in 0..5 {
        let op = point_op(&mut ids, k, 0, "step");
        history.add_operation(&mut ids, op).unwrap();
    }
    assert_eq!(history.stats().current_depth, 4);
    assert_eq!(history.current_operations().len(), 5);
}

#[test]
fn goto_rebuilds_the_undo_path() {
    let mut ids = IdGenerator::new();
    let mut history = HistoryTree::new(100);
    let mut recorded = Vec::new();
    for k in 0..4 {
        let op = point_op(&mut ids, k, 0, "step");
        recorded.push(op.id);
        history.add_operation(&mut ids, op).unwrap();
    }
    // disturb the stacks first
    assert!(history.undo().is_some());
    assert!(history.undo().is_some());
    history.goto_operation(recorded[2]).unwrap();
    let ops: Vec<OperationId> = history.current_operations().iter().map(|op| op.id).collect();
    assert_eq!(ops, recorded[..3].to_vec());
    assert!(history.redo().is_none());
}

#[test]
fn undoing_into_a_branch_point_forks_the_tree() {
    let mut ids = IdGenerator::new();
    let mut history = HistoryTree::new(100);
    let a = point_op(&mut ids, 0, 0, "A");
    let a_id = a.id;
    history.add_operation(&mut ids, a).unwrap();
    let b = point_op(&mut ids, 1, 0, "B");
    let b_id = b.id;
    history.add_operation(&mut ids, b).unwrap();
    assert!(history.undo().is_some());
    let c = point_op(&mut ids, 2, 0, "C");
    history.add_operation(&mut ids, c).unwrap();
    // both children of A stay reachable
    assert!(history.find_operation(&b_id).is_some());
    let ops: Vec<OperationId> = history.current_operations().iter().map(|op| op.id).collect();
    assert_eq!(ops[0], a_id);
    assert_eq!(ops.len(), 2);
}

#[test]
fn errors_name_the_offender() {
    let mut ids = IdGenerator::new();
    let mut history = HistoryTree::new(100);
    let ghost_id = OperationId::new(999);
    match history.goto_operation(ghost_id) {
        Err(HistoryError::NotFound(id)) => assert_eq!(id, ghost_id),
        other => panic!("expected NotFound, found {:?}", other),
    }
    let a = point_op(&mut ids, 0, 0, "A");
    let a_id = a.id;
    history.add_operation(&mut ids, a).unwrap();
    history.create_branch("main".to_string(), a_id).unwrap();
    match history.create_branch("main".to_string(), a_id) {
        Err(HistoryError::DuplicateBranch(name)) => assert_eq!(name, "main"),
        other => panic!("expected DuplicateBranch, found {:?}", other),
    }
    match history.switch_branch("nowhere") {
        Err(HistoryError::UnknownBranch(name)) => assert_eq!(name, "nowhere"),
        other => panic!("expected UnknownBranch, found {:?}", other),
    }
    assert_eq!(history.branches().len(), 1);
    assert_eq!(history.stats().branch_count, 1);
}

#[test]
fn undo_and_redo_on_empty_history_are_not_errors() {
    let mut history = HistoryTree::new(10);
    assert!(history.undo().is_none());
    assert!(history.redo().is_none());
    assert_eq!(history.current_operations().len(), 0);
}

#[test]
fn compression_triggers_at_the_ceiling() {
    let mut ids = IdGenerator::new();
    let mut history = HistoryTree::new(2);
    let target = EntityId::from_raw(3, 0);
    let m1 = move_op(&mut ids, vec![target], 1, 0);
    let m1_id = m1.id;
    history.add_operation(&mut ids, m1).unwrap();
    let m2 = move_op(&mut ids, vec![target], 2, 0);
    history.add_operation(&mut ids, m2).unwrap();
    // the third add reaches the ceiling; both moves sit on the current
    // path's tip, so nothing merges yet
    let m3 = move_op(&mut ids, vec![target], 4, 0);
    history.add_operation(&mut ids, m3).unwrap();
    // the fourth add compresses the first two moves into one node
    let m4 = move_op(&mut ids, vec![target], 8, 0);
    history.add_operation(&mut ids, m4).unwrap();
    assert_eq!(history.stats().compression_savings, 1);
    let merged = history.find_operation(&m1_id).unwrap();
    match &merged.operation_type {
        OperationType::MoveEntities { offset, .. } => {
            assert_eq!(offset.x, 3);
            assert_eq!(offset.y, 0);
        }
        other => panic!("expected a move, found {:?}", other),
    }
    assert_eq!(history.current_operations().len(), 3);
    assert_eq!(history.stats().total_operations, 4);
}

#[test]
fn dependency_graph_adds_the_parent_link() {
    let mut ids = IdGenerator::new();
    let mut history = HistoryTree::new(100);
    let a = point_op(&mut ids, 0, 0, "A");
    let a_id = a.id;
    history.add_operation(&mut ids, a).unwrap();
    let extra = OperationId::new(500);
    let b = point_op(&mut ids, 1, 0, "B").with_dependencies(vec![extra]);
    let b_id = b.id;
    history.add_operation(&mut ids, b).unwrap();
    let graph = history.dependency_graph();
    assert_eq!(graph.len(), 2);
    assert_eq!(graph[&a_id.0], Vec::<OperationId>::new());
    assert_eq!(graph[&b_id.0], vec![extra, a_id]);
}

#[test]
fn operation_builders_set_their_fields() {
    let mut ids = IdGenerator::new();
    let deps = vec![OperationId::new(11)];
    let touched = vec![EntityId::from_raw(4, 1)];
    let op = point_op(&mut ids, 0, 0, "built")
        .with_dependencies(deps.clone())
        .with_affected_entities(touched.clone())
        .with_undo(false);
    assert_eq!(op.dependencies, deps);
    assert_eq!(op.affected_entities, touched);
    assert!(!op.can_undo);
    assert!(!op.id.is_null());
    assert!(OperationId::null().is_null());
    assert_eq!(op.description, "built");
}

#[test]
fn tree_string_marks_the_active_path() {
    let mut ids = IdGenerator::new();
    let mut history = HistoryTree::new(100);
    assert_eq!(history.tree_string(), "");
    let a = point_op(&mut ids, 0, 0, "first");
    let a_id = a.id;
    history.add_operation(&mut ids, a).unwrap();
    let b = point_op(&mut ids, 1, 0, "second");
    let b_id = b.id;
    history.add_operation(&mut ids, b).unwrap();
    let expected = format!("  {}: first\n  * {}: second\n", a_id.0, b_id.0);
    assert_eq!(history.tree_string(), expected);
}
