//! The operation history tree.
//!
//! Every user-visible edit is recorded as an immutable [`Operation`].  A
//! [`HistoryTree`] links the operations into a rooted tree: linear editing
//! builds a chain, while "undo, then edit" forks a new branch under the
//! undone ancestor.  The tree supports linear undo/redo, time travel to any
//! recorded node, named branches, a derived dependency graph, and compression
//! of redundant consecutive edits.
//!
//! The tree's contracts are stated over [`TreeView`], a ghost snapshot of the
//! whole data structure, and [`TreeView::wf`], the well-formedness invariant
//! that every method preserves.

use crate::entity::{Entity, EntityId};
use crate::geometry::Geometry;
use crate::idgen::IdGenerator;
use crate::math::{Point2, Vector2};
use crate::parametric::{BooleanOp, Constraint, ConstraintId, VariableId};
use vstd::prelude::*;

verus! {

/// Identifier of a recorded operation.  The value 0 is the null sentinel:
/// it denotes "no operation" and is never stored in the tree.
#[derive(Debug, Clone, Copy, PartialEq, Eq, Structural, Hash)]
pub struct OperationId(pub u64);

impl OperationId {
    pub fn new(id: u64) -> (r: Self)
        ensures
            r == OperationId(id),
    {
        OperationId(id)
    }

    /// The null identifier.
    pub fn null() -> (r: Self)
        ensures
            r == OperationId(0u64),
    {
        OperationId(0)
    }

    /// Whether this is the null identifier.
    pub open spec fn spec_is_null(&self) -> bool {
        self.0 == 0
    }

    /// Whether this is the null identifier.
    pub fn is_null(&self) -> (r: bool)
        ensures
            r == self.spec_is_null(),
    {
        self.0 == 0
    }
}

/// What one recorded edit did, with enough data to undo it.
/// Angles, scales and variable values are in integer model units.
#[derive(Debug)]
pub enum OperationType {
    /// An entity was created.
    CreateEntity { entity: Entity },
    /// An entity was deleted; its last value is kept for undo.
    DeleteEntity { entity_id: EntityId, previous_entity: Option<Entity> },
    /// An entity's geometry was replaced.
    ModifyEntity { entity_id: EntityId, previous_geometry: Geometry, new_geometry: Geometry },
    /// A set of entities was moved by a common offset.
    MoveEntities { entity_ids: Vec<EntityId>, offset: Vector2, previous_positions: Vec<Point2> },
    /// A set of entities was rotated around a centre.
    RotateEntities {
        entity_ids: Vec<EntityId>,
        center: Point2,
        angle: i64,
        previous_angles: Vec<i64>,
    },
    /// A set of entities was scaled around a centre.
    ScaleEntities {
        entity_ids: Vec<EntityId>,
        center: Point2,
        scale: i64,
        previous_scales: Vec<i64>,
    },
    /// Two entities were combined by a boolean operation.
    BooleanOperation {
        operation: BooleanOp,
        entity1: EntityId,
        entity2: EntityId,
        result_entities: Vec<Entity>,
        previous_entities: Vec<Entity>,
    },
    /// A constraint was added.
    AddConstraint { constraint: Constraint },
    /// A constraint was removed; its last value is kept for undo.
    RemoveConstraint { constraint_id: ConstraintId, previous_constraint: Option<Constraint> },
    /// A parametric variable changed value.
    ModifyVariable { variable_id: VariableId, previous_value: i64, new_value: i64 },
    /// Several sub-operations recorded as one undo step.
    GroupOperation { name: String, operations: Vec<Operation> },
    /// An edit this module does not interpret.
    Custom { name: String, data: Vec<u8> },
}

/// One immutable, replayable record of a user edit.
/// The timestamp is microseconds since the Unix epoch.
#[derive(Debug)]
pub struct Operation {
    pub id: OperationId,
    pub operation_type: OperationType,
    pub timestamp: u64,
    pub description: String,
    pub can_undo: bool,
    /// Operations this one explicitly depends on, beyond its tree parent.
    pub dependencies: Vec<OperationId>,
    /// Entities this operation touches; opaque references into the document.
    pub affected_entities: Vec<EntityId>,
}

/// Relies on std::time::SystemTime::now for the current time in
/// microseconds since the Unix epoch; nothing is promised about the value.
#[verifier::external_body]
pub(crate) fn current_micros() -> u64 {
    match std::time::SystemTime::now().duration_since(std::time::SystemTime::UNIX_EPOCH) {
        Ok(d) => d.as_micros() as u64,
        Err(_) => 0,
    }
}

impl Operation {
    /// A new undoable operation with a fresh identifier, the current time,
    /// and no explicit dependencies or affected entities.
    pub fn new(ids: &mut IdGenerator, operation_type: OperationType, description: String) -> (r:
        Self)
        requires
            old(ids).wf(),
            old(ids).next() < u64::MAX,
        ensures
            r.id == OperationId(old(ids).next()),
            !r.id.spec_is_null(),
            r.operation_type == operation_type,
            r.description == description,
            r.can_undo,
            r.dependencies@ == Seq::<OperationId>::empty(),
            r.affected_entities@ == Seq::<EntityId>::empty(),
            final(ids).wf(),
            final(ids).next() == old(ids).next() + 1,
    {
        let r = Operation {
            id: OperationId(ids.fresh()),
            operation_type,
            timestamp: current_micros(),
            description,
            can_undo: true,
            dependencies: Vec::new(),
            affected_entities: Vec::new(),
        };
        proof {
            assert(r.dependencies@ =~= Seq::<OperationId>::empty());
            assert(r.affected_entities@ =~= Seq::<EntityId>::empty());
        }
        r
    }

    /// The same operation with the given explicit dependencies.
    pub fn with_dependencies(self, dependencies: Vec<OperationId>) -> (r: Self)
        ensures
            r == (Operation { dependencies, ..self }),
    {
        Operation { dependencies, ..self }
    }

    /// The same operation with the given affected entities.
    pub fn with_affected_entities(self, entities: Vec<EntityId>) -> (r: Self)
        ensures
            r == (Operation { affected_entities: entities, ..self }),
    {
        Operation { affected_entities: entities, ..self }
    }

    /// The same operation with the undoable flag set as given.
    pub fn with_undo(self, can_undo: bool) -> (r: Self)
        ensures
            r == (Operation { can_undo, ..self }),
    {
        Operation { can_undo, ..self }
    }
}

/// A node of the history tree: one operation plus tree linkage.
#[derive(Debug)]
pub struct HistoryNode {
    /// The node's key in the tree; equals the id of the operation the node
    /// was created with.  Compression may later replace the operation (which
    /// carries a fresh id) while the node keeps its key.
    pub id: OperationId,
    pub operation: Operation,
    /// `None` only for a root.
    pub parent: Option<OperationId>,
    /// More than one child makes this node a branch point.
    pub children: Vec<OperationId>,
    /// A root has depth 0; every other node is one deeper than its parent.
    pub depth: usize,
    /// Set on exactly the current node.
    pub is_active: bool,
}

impl HistoryNode {
    /// A fresh active leaf node for the given operation.
    pub fn new(operation: Operation, parent: Option<OperationId>, depth: usize) -> (r: Self)
        ensures
            r.id == operation.id,
            r.operation == operation,
            r.parent == parent,
            r.children@ == Seq::<OperationId>::empty(),
            r.depth == depth,
            r.is_active,
    {
        let r = HistoryNode { id: operation.id, operation, parent, children: Vec::new(), depth, is_active: true };
        proof {
            assert(r.children@ =~= Seq::<OperationId>::empty());
        }
        r
    }
}

/// Ghost image of one history node; children are a sequence of ids.
#[verifier::ext_equal]
pub ghost struct NodeView {
    pub id: OperationId,
    pub operation: Operation,
    pub parent: Option<OperationId>,
    pub children: Seq<OperationId>,
    pub depth: nat,
    pub is_active: bool,
}

impl View for HistoryNode {
    type V = NodeView;

    open spec fn view(&self) -> NodeView {
        NodeView {
            id: self.id,
            operation: self.operation,
            parent: self.parent,
            children: self.children@,
            depth: self.depth as nat,
            is_active: self.is_active,
        }
    }
}

/// Aggregate statistics of a history tree.
/// The last operation time is microseconds since the Unix epoch.
#[derive(Debug, Clone, Copy, Default)]
pub struct HistoryStats {
    /// How many operations were ever added.
    pub total_operations: usize,
    /// Depth of the node most recently made current by an add.
    pub current_depth: usize,
    /// How many named branches exist.
    pub branch_count: usize,
    /// How many nodes compression has removed.
    pub compression_savings: usize,
    /// Timestamp of the operation most recently added.
    pub last_operation_time: Option<u64>,
}

/// Why a history operation was refused.
#[derive(Debug, Clone, PartialEq, Eq)]
pub enum HistoryError {
    /// The given operation id is not in the tree.
    NotFound(OperationId),
    /// A branch with the given name already exists.
    DuplicateBranch(String),
    /// No branch has the given name.
    UnknownBranch(String),
}

impl HistoryError {
    /// A short description of the error.
    pub fn message(&self) -> (r: &'static str)
        ensures
            (self is NotFound) ==> r@ == "Operation not found"@,
            (self is DuplicateBranch) ==> r@ == "Branch already exists"@,
            (self is UnknownBranch) ==> r@ == "Branch not found"@,
    {
        match self {
            HistoryError::NotFound(_) => "Operation not found",
            HistoryError::DuplicateBranch(_) => "Branch already exists",
            HistoryError::UnknownBranch(_) => "Branch not found",
        }
    }
}

/// Ghost image of a whole history tree.
#[verifier::ext_equal]
pub ghost struct TreeView {
    /// All nodes, in insertion order; a parent always precedes its children.
    pub nodes: Seq<NodeView>,
    /// The node the document presently stands at; `None` before the first
    /// add and after a full undo.
    pub current: Option<OperationId>,
    /// The designated root; `None` exactly while the tree is empty.
    pub root: Option<OperationId>,
    /// Ids on the path from the root to the current node, root first.
    pub undo: Seq<OperationId>,
    /// Ids popped off by undo, restorable by redo; most recent last.
    pub redo: Seq<OperationId>,
    /// Named branches: name and target node id, in creation order.
    pub branches: Seq<(String, OperationId)>,
    pub stats: HistoryStats,
    /// Total-operation ceiling that triggers compression.
    pub max_ops: nat,
}

/// Whether some node in `s` has key `id`.
pub open spec fn has_id(s: Seq<NodeView>, id: OperationId) -> bool {
    exists|i: int| 0 <= i < s.len() && (#[trigger] s[i].id) == id
}

/// The index of the node with key `id` (unique when ids are distinct).
pub open spec fn idx_of(s: Seq<NodeView>, id: OperationId) -> int {
    choose|i: int| 0 <= i < s.len() && (#[trigger] s[i].id) == id
}

/// The node with key `id`.
pub open spec fn node_of(s: Seq<NodeView>, id: OperationId) -> NodeView {
    s[idx_of(s, id)]
}

/// No two nodes share a key.
pub open spec fn ids_distinct(s: Seq<NodeView>) -> bool {
    forall|i: int, j: int| 0 <= i < j < s.len() ==> (#[trigger] s[i].id) != (#[trigger] s[j].id)
}

/// No node has the null key.
pub open spec fn ids_nonzero(s: Seq<NodeView>) -> bool {
    forall|i: int| 0 <= i < s.len() ==> (#[trigger] s[i].id).0 != 0
}

/// The node at index `i` has a valid parent link: a root has depth 0, and
/// any other node points at an earlier node and lies one deeper than it.
pub open spec fn parent_ok(s: Seq<NodeView>, i: int) -> bool {
    match s[i].parent {
        None => s[i].depth == 0,
        Some(p) => exists|j: int|
            0 <= j < i && (#[trigger] s[j].id) == p && s[i].depth == s[j].depth + 1,
    }
}

/// Every node has a valid parent link.
pub open spec fn parents_ok(s: Seq<NodeView>) -> bool {
    forall|i: int| 0 <= i < s.len() ==> #[trigger] parent_ok(s, i)
}

/// Some node in `s` has key `c` and parent link `Some(pid)`.
pub open spec fn has_id_with_parent(s: Seq<NodeView>, c: OperationId, pid: OperationId) -> bool {
    exists|j: int| 0 <= j < s.len() && (#[trigger] s[j].id) == c && s[j].parent == Some(pid)
}

/// Every listed child exists and points back at the listing node.
pub open spec fn children_exist(s: Seq<NodeView>) -> bool {
    forall|i: int, k: int|
        0 <= i < s.len() && 0 <= k < s[i].children.len() ==> has_id_with_parent(
            s,
            #[trigger] s[i].children[k],
            s[i].id,
        )
}

/// No id is listed twice in one child list.
pub open spec fn children_distinct(s: Seq<NodeView>) -> bool {
    forall|i: int, k1: int, k2: int|
        0 <= i < s.len() && 0 <= k1 < k2 < s[i].children.len() ==> (#[trigger] s[i].children[k1])
            != (#[trigger] s[i].children[k2])
}

/// Every node with a parent is listed among that parent's children.
pub open spec fn children_complete(s: Seq<NodeView>) -> bool {
    forall|i: int|
        0 <= i < s.len() ==> match (#[trigger] s[i].parent) {
            None => true,
            Some(p) => has_id(s, p) && node_of(s, p).children.contains(s[i].id),
        }
}

/// Child lists are exact: every listed child exists and points back, no id
/// is listed twice, and every node with a parent is listed by it.
pub open spec fn children_ok(s: Seq<NodeView>) -> bool {
    &&& children_exist(s)
    &&& children_distinct(s)
    &&& children_complete(s)
}

/// Whether `ids` is a parent-linked path in `s` from a root down to `last`.
pub open spec fn is_chain(s: Seq<NodeView>, ids: Seq<OperationId>, last: OperationId) -> bool {
    &&& ids.len() > 0
    &&& ids.last() == last
    &&& forall|k: int| 0 <= k < ids.len() ==> has_id(s, #[trigger] ids[k])
    &&& node_of(s, ids[0]).parent is None
    &&& forall|k: int|
        1 <= k < ids.len() ==> node_of(s, #[trigger] ids[k]).parent == Some(ids[k - 1])
}

impl TreeView {
    /// Whether node `id` exists in this tree.
    pub open spec fn has(self, id: OperationId) -> bool {
        has_id(self.nodes, id)
    }

    /// The node with key `id`.
    pub open spec fn node(self, id: OperationId) -> NodeView {
        node_of(self.nodes, id)
    }

    /// Whether `id` is the target of some named branch.
    pub open spec fn is_branch_target(self, id: OperationId) -> bool {
        exists|k: int| 0 <= k < self.branches.len() && (#[trigger] self.branches[k]).1 == id
    }

    /// Whether a branch with the view of `name` exists.
    pub open spec fn has_branch(self, name: Seq<char>) -> bool {
        exists|k: int| 0 <= k < self.branches.len() && (#[trigger] self.branches[k]).0@ == name
    }

    /// The target of the branch whose name has the view `name`.
    pub open spec fn branch_target(self, name: Seq<char>) -> OperationId {
        let k = choose|k: int|
            0 <= k < self.branches.len() && (#[trigger] self.branches[k]).0@ == name;
        self.branches[k].1
    }

    /// The well-formedness invariant of the tree.  Every method of
    /// [`HistoryTree`] preserves it.
    pub open spec fn wf(self) -> bool {
        &&& ids_distinct(self.nodes)
        &&& ids_nonzero(self.nodes)
        &&& parents_ok(self.nodes)
        &&& children_ok(self.nodes)
        &&& match self.current {
            None => self.undo.len() == 0,
            Some(c) => self.has(c) && is_chain(self.nodes, self.undo, c),
        }
        &&& forall|i: int|
            0 <= i < self.nodes.len() ==> ((#[trigger] self.nodes[i].is_active) <==> self.current
                == Some(self.nodes[i].id))
        &&& (self.root is None <==> self.nodes.len() == 0)
        &&& match self.root {
            None => true,
            Some(r) => self.has(r) && self.node(r).parent is None,
        }
        &&& forall|k: int|
            0 <= k < self.redo.len() ==> {
                &&& has_id(self.nodes, #[trigger] self.redo[k])
                &&& node_of(self.nodes, self.redo[k]).parent == (if k == self.redo.len() - 1 {
                    self.current
                } else {
                    Some(self.redo[k + 1])
                })
            }
        &&& forall|k: int|
            0 <= k < self.branches.len() ==> has_id(self.nodes, (#[trigger] self.branches[k]).1)
        &&& forall|k1: int, k2: int|
            0 <= k1 < k2 < self.branches.len() ==> (#[trigger] self.branches[k1]).0@ != (
            #[trigger] self.branches[k2]).0@
        &&& self.stats.branch_count == self.branches.len()
        &&& self.stats.compression_savings + self.nodes.len() <= self.stats.total_operations
    }
}

/// At a known index, the chosen index of a key agrees with it.
pub proof fn lemma_idx_at(s: Seq<NodeView>, i: int)
    requires
        ids_distinct(s),
        0 <= i < s.len(),
    ensures
        has_id(s, s[i].id),
        idx_of(s, s[i].id) == i,
        node_of(s, s[i].id) == s[i],
{
    assert(has_id(s, s[i].id));
    let j = idx_of(s, s[i].id);
    assert(0 <= j < s.len() && s[j].id == s[i].id);
    if i != j {
        assert(false);
    }
}

/// A node's depth never exceeds its index, so depths stay below the length.
pub proof fn lemma_depth_le_index(s: Seq<NodeView>, i: int)
    requires
        parents_ok(s),
        0 <= i < s.len(),
    ensures
        s[i].depth <= i,
    decreases i,
{
    assert(parent_ok(s, i));
    match s[i].parent {
        None => {},
        Some(p) => {
            let j = choose|j: int|
                0 <= j < i && (#[trigger] s[j].id) == p && s[i].depth == s[j].depth + 1;
            lemma_depth_le_index(s, j);
        },
    }
}

} // verus!

verus! {

/// The tree after adding `op` as a child of the current node (or as a new
/// designated root if there is no current node): the new node becomes
/// current, the undo path grows by it, and the redo record is discarded.
pub open spec fn spec_add(t: TreeView, op: Operation) -> TreeView {
    let depth: nat = match t.current {
        None => 0,
        Some(p) => node_of(t.nodes, p).depth + 1,
    };
    let nodes1 = match t.current {
        None => t.nodes,
        Some(p) => t.nodes.update(
            idx_of(t.nodes, p),
            NodeView {
                children: node_of(t.nodes, p).children.push(op.id),
                is_active: false,
                ..node_of(t.nodes, p)
            },
        ),
    };
    let node = NodeView {
        id: op.id,
        operation: op,
        parent: t.current,
        children: Seq::empty(),
        depth,
        is_active: true,
    };
    TreeView {
        nodes: nodes1.push(node),
        current: Some(op.id),
        root: if t.current is None {
            Some(op.id)
        } else {
            t.root
        },
        undo: t.undo.push(op.id),
        redo: Seq::empty(),
        branches: t.branches,
        stats: HistoryStats {
            total_operations: (t.stats.total_operations + 1) as usize,
            current_depth: depth as usize,
            branch_count: t.stats.branch_count,
            compression_savings: t.stats.compression_savings,
            last_operation_time: Some(op.timestamp),
        },
        max_ops: t.max_ops,
    }
}

/// The tree after one undo: the current node's id moves from the undo path
/// to the redo record and its parent becomes current.  Without a current
/// node, undo changes nothing.
pub open spec fn spec_undo(t: TreeView) -> TreeView {
    match t.current {
        None => t,
        Some(c) => {
            let ci = idx_of(t.nodes, c);
            let par = node_of(t.nodes, c).parent;
            let nodes1 = t.nodes.update(ci, NodeView { is_active: false, ..t.nodes[ci] });
            let nodes2 = match par {
                None => nodes1,
                Some(p) => nodes1.update(
                    idx_of(t.nodes, p),
                    NodeView { is_active: true, ..nodes1[idx_of(t.nodes, p)] },
                ),
            };
            TreeView {
                nodes: nodes2,
                current: par,
                undo: t.undo.drop_last(),
                redo: t.redo.push(c),
                ..t
            }
        },
    }
}

/// The tree after one redo: the most recently undone id moves back from the
/// redo record to the undo path and becomes current.  With nothing recorded
/// to redo, nothing changes.
pub open spec fn spec_redo(t: TreeView) -> TreeView {
    if t.redo.len() == 0 {
        t
    } else {
        let c = t.redo.last();
        let nodes1 = match t.current {
            None => t.nodes,
            Some(cur) => t.nodes.update(
                idx_of(t.nodes, cur),
                NodeView { is_active: false, ..node_of(t.nodes, cur) },
            ),
        };
        let nodes2 = nodes1.update(
            idx_of(t.nodes, c),
            NodeView { is_active: true, ..nodes1[idx_of(t.nodes, c)] },
        );
        TreeView {
            nodes: nodes2,
            current: Some(c),
            undo: t.undo.push(c),
            redo: t.redo.drop_last(),
            ..t
        }
    }
}

/// Adding a well-formed fresh operation preserves the tree invariant.
pub proof fn lemma_add_wf(t: TreeView, op: Operation)
    requires
        t.wf(),
        !has_id(t.nodes, op.id),
        op.id.0 != 0,
        t.stats.total_operations < usize::MAX,
    ensures
        spec_add(t, op).wf(),
{
    let t2 = spec_add(t, op);
    let s = t.nodes;
    let s2 = t2.nodes;
    let newi = s.len() as int;
    assert(s2.len() == s.len() + 1);
    assert(forall|i: int| 0 <= i < s.len() ==> (#[trigger] s2[i].id) == s[i].id);
    match t.current {
        None => {
            assert(forall|i: int| 0 <= i < s.len() ==> s2[i] =~= s[i]);
            assert(parents_ok(s2)) by {
                assert(forall|i: int| 0 <= i < s.len() && parent_ok(s, i) ==> parent_ok(s2, i));
                assert(parent_ok(s2, newi));
            }
            assert(children_ok(s2)) by {
                assert(forall|i: int|
                    0 <= i < s2.len() ==> match (#[trigger] s2[i].parent) {
                        None => true,
                        Some(p) => has_id(s2, p) && node_of(s2, p).children.contains(s2[i].id),
                    }) by {
                    assert forall|i: int| 0 <= i < s2.len() implies match (#[trigger] s2[i].parent) {
                        None => true,
                        Some(p) => has_id(s2, p) && node_of(s2, p).children.contains(s2[i].id),
                    } by {
                        if i < s.len() {
                            match s[i].parent {
                                None => {},
                                Some(p) => {
                                    let pj = idx_of(s, p);
                                    lemma_idx_at(s2, pj);
                                },
                            }
                        }
                    }
                }
            }
            assert(is_chain(s2, t2.undo, op.id)) by {
                lemma_idx_at(s2, newi);
                assert(t2.undo.len() == 1);
                assert(t2.undo[0] == op.id);
            }
            assert(t2.wf());
        },
        Some(p) => {
            let pi = idx_of(s, p);
            lemma_idx_at(s, idx_of(s, p));
            assert(0 <= pi < s.len() && s[pi].id == p);
            assert(forall|i: int|
                0 <= i < s.len() && i != pi ==> s2[i] =~= s[i]);
            assert(s2[pi].id == p && s2[pi].parent == s[pi].parent && s2[pi].depth == s[pi].depth
                && s2[pi].operation == s[pi].operation);
            assert(s2[pi].children =~= s[pi].children.push(op.id));
            assert(ids_distinct(s2));
            assert(parents_ok(s2)) by {
                assert forall|i: int| 0 <= i < s2.len() implies parent_ok(s2, i) by {
                    if i < s.len() {
                        assert(parent_ok(s, i));
                        match s[i].parent {
                            None => {},
                            Some(q) => {
                                let j = choose|j: int|
                                    0 <= j < i && (#[trigger] s[j].id) == q
                                        && s[i].depth == s[j].depth + 1;
                                assert(s2[j].id == q && s2[i].depth == s2[j].depth + 1);
                            },
                        }
                    } else {
                        assert(s2[i] == t2.nodes[newi]);
                        assert(0 <= pi < newi && s2[pi].id == p && s2[newi].depth == s2[pi].depth
                            + 1);
                    }
                }
            }
            assert(children_ok(s2)) by {
                assert forall|i: int, k: int|
                    0 <= i < s2.len() && 0 <= k < s2[i].children.len() implies {
                    let c = #[trigger] s2[i].children[k];
                    exists|j: int|
                        0 <= j < s2.len() && (#[trigger] s2[j].id) == c && s2[j].parent == Some(
                            s2[i].id,
                        )
                } by {
                    let c = s2[i].children[k];
                    if i == pi && k == s[pi].children.len() {
                        assert(c == op.id);
                        assert(s2[newi].id == c && s2[newi].parent == Some(s2[pi].id));
                    } else if i < s.len() {
                        assert(c == s[i].children[k]);
                        let j = choose|j: int|
                            0 <= j < s.len() && (#[trigger] s[j].id) == c && s[j].parent == Some(
                                s[i].id,
                            );
                        assert(s2[j].id == c && s2[j].parent == Some(s2[i].id));
                    }
                }
                assert forall|i: int, k1: int, k2: int|
                    0 <= i < s2.len() && 0 <= k1 < k2 < s2[i].children.len() implies (
                #[trigger] s2[i].children[k1]) != (#[trigger] s2[i].children[k2]) by {
                    if i == pi && k2 == s[pi].children.len() {
                        let c1 = s[pi].children[k1];
                        let j = choose|j: int|
                            0 <= j < s.len() && (#[trigger] s[j].id) == c1 && s[j].parent == Some(
                                s[pi].id,
                            );
                        assert(has_id(s, c1));
                        assert(c1 != op.id);
                    }
                }
                assert forall|i: int| 0 <= i < s2.len() implies match (#[trigger] s2[i].parent) {
                    None => true,
                    Some(q) => has_id(s2, q) && node_of(s2, q).children.contains(s2[i].id),
                } by {
                    if i < s.len() {
                        match s[i].parent {
                            None => {},
                            Some(q) => {
                                let qj = idx_of(s, q);
                                lemma_idx_at(s, qj);
                                lemma_idx_at(s2, qj);
                                assert(node_of(s, q).children.contains(s[i].id));
                                if qj == pi {
                                    assert(s2[pi].children.contains(s[i].id)) by {
                                        let w = choose|w: int|
                                            0 <= w < s[pi].children.len() && s[pi].children[w]
                                                == s[i].id;
                                        assert(s2[pi].children[w] == s[i].id);
                                    }
                                } else {
                                    assert(s2[qj].children =~= s[qj].children);
                                }
                            },
                        }
                    } else {
                        lemma_idx_at(s2, pi);
                        assert(s2[pi].children.contains(op.id)) by {
                            assert(s2[pi].children[s[pi].children.len() as int] == op.id);
                        }
                    }
                }
            }
            assert(is_chain(s2, t2.undo, op.id)) by {
                let u = t.undo;
                let u2 = t2.undo;
                assert(u.len() > 0 && u.last() == p);
                assert(forall|k: int| 0 <= k < u.len() ==> u2[k] == u[k]);
                lemma_idx_at(s2, newi);
                assert forall|k: int| 0 <= k < u2.len() implies has_id(s2, #[trigger] u2[k]) by {
                    if k < u.len() {
                        assert(has_id(s, u[k]));
                        let j = idx_of(s, u[k]);
                        lemma_idx_at(s, j);
                        assert(s2[j].id == u[k]);
                    }
                }
                assert(node_of(s2, u2[0]).parent is None) by {
                    if u.len() > 0 {
                        let j = idx_of(s, u[0]);
                        lemma_idx_at(s, j);
                        lemma_idx_at(s2, j);
                        assert(node_of(s, u[0]).parent is None);
                        assert(s2[j].parent == s[j].parent);
                    }
                }
                assert forall|k: int|
                    1 <= k < u2.len() implies node_of(s2, #[trigger] u2[k]).parent == Some(
                    u2[k - 1],
                ) by {
                    if k < u.len() {
                        let j = idx_of(s, u[k]);
                        lemma_idx_at(s, j);
                        lemma_idx_at(s2, j);
                        assert(node_of(s, u[k]).parent == Some(u[k - 1]));
                    } else {
                        assert(u2[k] == op.id);
                        assert(node_of(s2, op.id).parent == Some(p));
                        assert(u2[k - 1] == u.last());
                    }
                }
            }
            assert(forall|i: int|
                0 <= i < s2.len() ==> ((#[trigger] s2[i].is_active) <==> t2.current == Some(
                    s2[i].id,
                )));
            match t.root {
                None => {},
                Some(r) => {
                    let rj = idx_of(s, r);
                    lemma_idx_at(s, rj);
                    lemma_idx_at(s2, rj);
                },
            }
            assert forall|k: int|
                0 <= k < t2.branches.len() implies has_id(s2, (#[trigger] t2.branches[k]).1) by {
                let b = t.branches[k].1;
                assert(has_id(s, b));
                let j = idx_of(s, b);
                lemma_idx_at(s, j);
                assert(s2[j].id == b);
            }
            assert(t2.wf());
        },
    }
}

} // verus!

verus! {

/// In a well-formed tree, a node is never its own ancestor: any node whose
/// parent link is `Some(q)` differs from `q`.
pub proof fn lemma_parent_differs(s: Seq<NodeView>, i: int)
    requires
        ids_distinct(s),
        parents_ok(s),
        0 <= i < s.len(),
        s[i].parent is Some,
    ensures
        s[i].parent != Some(s[i].id),
        idx_of(s, s[i].parent->Some_0) < i,
{
    let q = s[i].parent->Some_0;
    assert(parent_ok(s, i));
    let j = choose|j: int| 0 <= j < i && (#[trigger] s[j].id) == q && s[i].depth == s[j].depth + 1;
    lemma_idx_at(s, j);
}

/// Undo preserves the tree invariant.
#[verifier::rlimit(100)]
pub proof fn lemma_undo_wf(t: TreeView)
    requires
        t.wf(),
    ensures
        spec_undo(t).wf(),
{
    let t2 = spec_undo(t);
    match t.current {
        None => {},
        Some(c) => {
            let s = t.nodes;
            let s2 = t2.nodes;
            let ci = idx_of(s, c);
            lemma_idx_at(s, ci);
            let u = t.undo;
            assert(is_chain(s, u, c));
            assert(u.last() == c);
            let par = node_of(s, c).parent;
            assert(s2.len() == s.len());
            assert(forall|i: int| 0 <= i < s.len() ==> (#[trigger] s2[i].id) == s[i].id
                && s2[i].parent == s[i].parent && s2[i].depth == s[i].depth && s2[i].children
                == s[i].children && s2[i].operation == s[i].operation);
            assert(parents_ok(s2)) by {
                assert forall|i: int| 0 <= i < s2.len() implies parent_ok(s2, i) by {
                    assert(parent_ok(s, i));
                    match s[i].parent {
                        None => {},
                        Some(q) => {
                            let j = choose|j: int|
                                0 <= j < i && (#[trigger] s[j].id) == q
                                    && s[i].depth == s[j].depth + 1;
                            assert(s2[j].id == q && s2[i].depth == s2[j].depth + 1);
                        },
                    }
                }
            }
            assert(children_ok(s2)) by {
                assert forall|i: int, k: int|
                    0 <= i < s2.len() && 0 <= k < s2[i].children.len() implies {
                    let cc = #[trigger] s2[i].children[k];
                    exists|j: int|
                        0 <= j < s2.len() && (#[trigger] s2[j].id) == cc && s2[j].parent == Some(
                            s2[i].id,
                        )
                } by {
                    let cc = s[i].children[k];
                    let j = choose|j: int|
                        0 <= j < s.len() && (#[trigger] s[j].id) == cc && s[j].parent == Some(
                            s[i].id,
                        );
                    assert(s2[j].id == cc && s2[j].parent == Some(s2[i].id));
                }
                assert forall|i: int| 0 <= i < s2.len() implies match (#[trigger] s2[i].parent) {
                    None => true,
                    Some(q) => has_id(s2, q) && node_of(s2, q).children.contains(s2[i].id),
                } by {
                    match s[i].parent {
                        None => {},
                        Some(q) => {
                            let qj = idx_of(s, q);
                            lemma_idx_at(s, qj);
                            lemma_idx_at(s2, qj);
                            assert(node_of(s, q).children.contains(s[i].id));
                            assert(s2[qj].children == s[qj].children);
                        },
                    }
                }
            }
            match par {
                None => {
                    // the chain ends at a root, so it has exactly one entry
                    if u.len() >= 2 {
                        assert(node_of(s, u[u.len() - 1]).parent == Some(u[u.len() - 2]));
                        assert(false);
                    }
                    assert(t2.undo.len() == 0);
                    assert(t2.current is None);
                },
                Some(p) => {
                    if u.len() < 2 {
                        assert(node_of(s, u[0]).parent is None);
                        assert(false);
                    }
                    assert(node_of(s, u[u.len() - 1]).parent == Some(u[u.len() - 2]));
                    assert(p == u[u.len() - 2]);
                    let pi = idx_of(s, p);
                    lemma_idx_at(s, pi);
                    lemma_parent_differs(s, ci);
                    assert(pi != ci);
                    let u2 = t2.undo;
                    assert(u2 =~= u.drop_last());
                    assert(is_chain(s2, u2, p)) by {
                        assert(u2.len() == u.len() - 1);
                        assert(u2.last() == p);
                        assert forall|k: int| 0 <= k < u2.len() implies has_id(
                            s2,
                            #[trigger] u2[k],
                        ) by {
                            assert(has_id(s, u[k]));
                            let j = idx_of(s, u[k]);
                            lemma_idx_at(s, j);
                            assert(s2[j].id == u[k]);
                        }
                        assert(node_of(s2, u2[0]).parent is None) by {
                            let j = idx_of(s, u[0]);
                            lemma_idx_at(s, j);
                            lemma_idx_at(s2, j);
                        }
                        assert forall|k: int|
                            1 <= k < u2.len() implies node_of(s2, #[trigger] u2[k]).parent
                            == Some(u2[k - 1]) by {
                            let j = idx_of(s, u[k]);
                            lemma_idx_at(s, j);
                            lemma_idx_at(s2, j);
                            assert(node_of(s, u[k]).parent == Some(u[k - 1]));
                        }
                    }
                },
            }
            assert(forall|i: int|
                0 <= i < s2.len() ==> ((#[trigger] s2[i].is_active) <==> t2.current == Some(
                    s2[i].id,
                )));
            match t.root {
                None => {},
                Some(r) => {
                    let rj = idx_of(s, r);
                    lemma_idx_at(s, rj);
                    lemma_idx_at(s2, rj);
                },
            }
            assert forall|k: int| 0 <= k < t2.redo.len() implies {
                &&& has_id(s2, #[trigger] t2.redo[k])
                &&& node_of(s2, t2.redo[k]).parent == (if k == t2.redo.len() - 1 {
                    t2.current
                } else {
                    Some(t2.redo[k + 1])
                })
            } by {
                if k < t.redo.len() {
                    assert(has_id(s, t.redo[k]));
                    let j = idx_of(s, t.redo[k]);
                    lemma_idx_at(s, j);
                    lemma_idx_at(s2, j);
                    assert(node_of(s, t.redo[k]).parent == (if k == t.redo.len() - 1 {
                        t.current
                    } else {
                        Some(t.redo[k + 1])
                    }));
                } else {
                    assert(t2.redo[k] == c);
                    lemma_idx_at(s2, ci);
                }
            }
            assert forall|k: int|
                0 <= k < t2.branches.len() implies has_id(s2, (#[trigger] t2.branches[k]).1) by {
                let b = t.branches[k].1;
                let j = idx_of(s, b);
                lemma_idx_at(s, j);
                assert(s2[j].id == b);
            }
            assert(t2.wf());
        },
    }
}

/// Redo preserves the tree invariant.
#[verifier::rlimit(100)]
pub proof fn lemma_redo_wf(t: TreeView)
    requires
        t.wf(),
    ensures
        spec_redo(t).wf(),
{
    if t.redo.len() == 0 {
    } else {
        let t2 = spec_redo(t);
        let s = t.nodes;
        let s2 = t2.nodes;
        let c = t.redo.last();
        assert(has_id(s, c));
        let ci = idx_of(s, c);
        lemma_idx_at(s, ci);
        assert(node_of(s, c).parent == t.current);
        assert(s2.len() == s.len());
        assert(forall|i: int| 0 <= i < s.len() ==> (#[trigger] s2[i].id) == s[i].id
            && s2[i].parent == s[i].parent && s2[i].depth == s[i].depth && s2[i].children
            == s[i].children && s2[i].operation == s[i].operation);
        assert(parents_ok(s2)) by {
            assert forall|i: int| 0 <= i < s2.len() implies parent_ok(s2, i) by {
                assert(parent_ok(s, i));
                match s[i].parent {
                    None => {},
                    Some(q) => {
                        let j = choose|j: int|
                            0 <= j < i && (#[trigger] s[j].id) == q
                                && s[i].depth == s[j].depth + 1;
                        assert(s2[j].id == q && s2[i].depth == s2[j].depth + 1);
                    },
                }
            }
        }
        assert(children_ok(s2)) by {
            assert forall|i: int, k: int|
                0 <= i < s2.len() && 0 <= k < s2[i].children.len() implies {
                let cc = #[trigger] s2[i].children[k];
                exists|j: int|
                    0 <= j < s2.len() && (#[trigger] s2[j].id) == cc && s2[j].parent == Some(
                        s2[i].id,
                    )
            } by {
                let cc = s[i].children[k];
                let j = choose|j: int|
                    0 <= j < s.len() && (#[trigger] s[j].id) == cc && s[j].parent == Some(
                        s[i].id,
                    );
                assert(s2[j].id == cc && s2[j].parent == Some(s2[i].id));
            }
            assert forall|i: int| 0 <= i < s2.len() implies match (#[trigger] s2[i].parent) {
                None => true,
                Some(q) => has_id(s2, q) && node_of(s2, q).children.contains(s2[i].id),
            } by {
                match s[i].parent {
                    None => {},
                    Some(q) => {
                        let qj = idx_of(s, q);
                        lemma_idx_at(s, qj);
                        lemma_idx_at(s2, qj);
                        assert(node_of(s, q).children.contains(s[i].id));
                        assert(s2[qj].children == s[qj].children);
                    },
                }
            }
        }
        match t.current {
            None => {
                assert(t.undo.len() == 0);
                assert(node_of(s, c).parent is None);
                assert(is_chain(s2, t2.undo, c)) by {
                    lemma_idx_at(s2, ci);
                    assert(t2.undo.len() == 1 && t2.undo[0] == c);
                }
            },
            Some(cur) => {
                let cui = idx_of(s, cur);
                lemma_idx_at(s, cui);
                lemma_parent_differs(s, ci);
                assert(cui != ci);
                let u = t.undo;
                let u2 = t2.undo;
                assert(is_chain(s, u, cur));
                assert(is_chain(s2, u2, c)) by {
                    assert(u2.len() == u.len() + 1);
                    assert(u2.last() == c);
                    assert forall|k: int| 0 <= k < u2.len() implies has_id(
                        s2,
                        #[trigger] u2[k],
                    ) by {
                        if k < u.len() {
                            let j = idx_of(s, u[k]);
                            lemma_idx_at(s, j);
                            assert(s2[j].id == u[k]);
                        } else {
                            lemma_idx_at(s2, ci);
                        }
                    }
                    assert(node_of(s2, u2[0]).parent is None) by {
                        let j = idx_of(s, u[0]);
                        lemma_idx_at(s, j);
                        lemma_idx_at(s2, j);
                    }
                    assert forall|k: int|
                        1 <= k < u2.len() implies node_of(s2, #[trigger] u2[k]).parent == Some(
                        u2[k - 1],
                    ) by {
                        if k < u.len() {
                            let j = idx_of(s, u[k]);
                            lemma_idx_at(s, j);
                            lemma_idx_at(s2, j);
                            assert(node_of(s, u[k]).parent == Some(u[k - 1]));
                        } else {
                            lemma_idx_at(s2, ci);
                            assert(u2[k] == c);
                            assert(node_of(s2, c).parent == Some(cur));
                            assert(u2[k - 1] == u.last());
                        }
                    }
                }
            },
        }
        assert(forall|i: int|
            0 <= i < s2.len() ==> ((#[trigger] s2[i].is_active) <==> t2.current == Some(
                s2[i].id,
            )));
        match t.root {
            None => {},
            Some(r) => {
                let rj = idx_of(s, r);
                lemma_idx_at(s, rj);
                lemma_idx_at(s2, rj);
            },
        }
        assert forall|k: int| 0 <= k < t2.redo.len() implies {
            &&& has_id(s2, #[trigger] t2.redo[k])
            &&& node_of(s2, t2.redo[k]).parent == (if k == t2.redo.len() - 1 {
                t2.current
            } else {
                Some(t2.redo[k + 1])
            })
        } by {
            assert(has_id(s, t.redo[k]));
            let j = idx_of(s, t.redo[k]);
            lemma_idx_at(s, j);
            lemma_idx_at(s2, j);
            assert(node_of(s, t.redo[k]).parent == (if k == t.redo.len() - 1 {
                t.current
            } else {
                Some(t.redo[k + 1])
            }));
            if k == t2.redo.len() - 1 {
                assert(t.redo[k + 1] == c);
            }
        }
        assert forall|k: int|
            0 <= k < t2.branches.len() implies has_id(s2, (#[trigger] t2.branches[k]).1) by {
            let b = t.branches[k].1;
            let j = idx_of(s, b);
            lemma_idx_at(s, j);
            assert(s2[j].id == b);
        }
        assert(t2.wf());
    }
}

} // verus!

verus! {

/// The history of one editing session: a rooted tree of recorded operations,
/// the current position in it, undo/redo paths, and named branches.
pub struct HistoryTree {
    /// All nodes, in insertion order; the only store of truth.
    nodes: Vec<HistoryNode>,
    /// The node the document presently stands at.
    current_node: Option<OperationId>,
    /// The designated root.
    root_node: Option<OperationId>,
    /// Path from the root to the current node, root first.
    undo_stack: Vec<OperationId>,
    /// Ids popped by undo, restorable by redo; most recent last.
    redo_stack: Vec<OperationId>,
    /// Named branches, in creation order.
    branches: Vec<(String, OperationId)>,
    /// Aggregate statistics.
    stats: HistoryStats,
    /// Total-operation ceiling that triggers compression on add.
    max_depth: usize,
}

impl View for HistoryTree {
    type V = TreeView;

    closed spec fn view(&self) -> TreeView {
        TreeView {
            nodes: self.nodes@.map(|i: int, n: HistoryNode| n@),
            current: self.current_node,
            root: self.root_node,
            undo: self.undo_stack@,
            redo: self.redo_stack@,
            branches: self.branches@,
            stats: self.stats,
            max_ops: self.max_depth as nat,
        }
    }
}

impl HistoryTree {
    /// An empty history that will compress itself once `max_depth`
    /// operations have been recorded.
    pub fn new(max_depth: usize) -> (r: Self)
        ensures
            r@.wf(),
            r@ == (TreeView {
                nodes: Seq::empty(),
                current: None,
                root: None,
                undo: Seq::empty(),
                redo: Seq::empty(),
                branches: Seq::empty(),
                stats: HistoryStats {
                    total_operations: 0,
                    current_depth: 0,
                    branch_count: 0,
                    compression_savings: 0,
                    last_operation_time: None,
                },
                max_ops: max_depth as nat,
            }),
    {
        let r = HistoryTree {
            nodes: Vec::new(),
            current_node: None,
            root_node: None,
            undo_stack: Vec::new(),
            redo_stack: Vec::new(),
            branches: Vec::new(),
            stats: HistoryStats {
                total_operations: 0,
                current_depth: 0,
                branch_count: 0,
                compression_savings: 0,
                last_operation_time: None,
            },
            max_depth,
        };
        proof {
            assert(r@ =~~= (TreeView {
                nodes: Seq::empty(),
                current: None,
                root: None,
                undo: Seq::empty(),
                redo: Seq::empty(),
                branches: Seq::empty(),
                stats: HistoryStats {
                    total_operations: 0,
                    current_depth: 0,
                    branch_count: 0,
                    compression_savings: 0,
                    last_operation_time: None,
                },
                max_ops: max_depth as nat,
            }));
        }
        r
    }

    /// The index of the node with the given id, if any.
    fn find_index(&self, id: OperationId) -> (r: Option<usize>)
        ensures
            match r {
                Some(i) => i < self@.nodes.len() && self@.nodes[i as int].id == id,
                None => !has_id(self@.nodes, id),
            },
    {
        let mut i: usize = 0;
        while i < self.nodes.len()
            invariant
                i <= self.nodes.len(),
                self@.nodes.len() == self.nodes.len(),
                forall|k: int| 0 <= k < i ==> (#[trigger] self@.nodes[k].id) != id,
            decreases self.nodes.len() - i,
        {
            if self.nodes[i].id.0 == id.0 {
                return Some(i);
            }
            i = i + 1;
        }
        None
    }

    /// Set the active flag of the node at index `i`.
    fn node_set_active(&mut self, i: usize, b: bool)
        requires
            i < old(self)@.nodes.len(),
        ensures
            final(self)@ == (TreeView {
                nodes: old(self)@.nodes.update(
                    i as int,
                    NodeView { is_active: b, ..old(self)@.nodes[i as int] },
                ),
                ..old(self)@
            }),
    {
        let n = &mut self.nodes[i];
        n.is_active = b;
        proof {
            assert(self@.nodes =~= old(self)@.nodes.update(
                i as int,
                NodeView { is_active: b, ..old(self)@.nodes[i as int] },
            ));
            assert(self@ =~~= (TreeView {
                nodes: old(self)@.nodes.update(
                    i as int,
                    NodeView { is_active: b, ..old(self)@.nodes[i as int] },
                ),
                ..old(self)@
            }));
        }
    }

    /// Append a child id to the node at index `i`.
    fn node_push_child(&mut self, i: usize, c: OperationId)
        requires
            i < old(self)@.nodes.len(),
        ensures
            final(self)@ == (TreeView {
                nodes: old(self)@.nodes.update(
                    i as int,
                    NodeView {
                        children: old(self)@.nodes[i as int].children.push(c),
                        ..old(self)@.nodes[i as int]
                    },
                ),
                ..old(self)@
            }),
    {
        let n = &mut self.nodes[i];
        n.children.push(c);
        proof {
            assert(self@.nodes =~~= old(self)@.nodes.update(
                i as int,
                NodeView {
                    children: old(self)@.nodes[i as int].children.push(c),
                    ..old(self)@.nodes[i as int]
                },
            ));
            assert(self@ =~~= (TreeView {
                nodes: old(self)@.nodes.update(
                    i as int,
                    NodeView {
                        children: old(self)@.nodes[i as int].children.push(c),
                        ..old(self)@.nodes[i as int]
                    },
                ),
                ..old(self)@
            }));
        }
    }

    /// Record one operation: link it under the current node (or start a new
    /// root), make it current, extend the undo path, and discard the redo
    /// record.  If the total operation count has reached the configured
    /// ceiling, the history is compressed first.
    pub fn add_operation(&mut self, ids: &mut IdGenerator, operation: Operation) -> (r: Result<
        (),
        HistoryError,
    >)
        requires
            old(self)@.wf(),
            old(ids).wf(),
            !has_id(old(self)@.nodes, operation.id),
            operation.id.0 != 0,
            old(self)@.stats.total_operations < usize::MAX,
            old(ids).next() + old(self)@.nodes.len() <= u64::MAX,
        ensures
            r is Ok,
            final(self)@.wf(),
            final(ids).wf(),
            old(self)@.stats.total_operations < old(self)@.max_ops ==> final(self)@ == spec_add(
                old(self)@,
                operation,
            ) && *final(ids) == *old(ids),
            old(self)@.stats.total_operations >= old(self)@.max_ops ==> exists|mid: TreeView|
                #[trigger] compress_rel(old(self)@, mid) && mid.wf() && final(self)@ == spec_add(
                    mid,
                    operation,
                ),
    {
        // at the ceiling, compress before recording the new operation
        if self.stats.total_operations >= self.max_depth {
            match self.compress_history(ids) {
                Ok(()) => {},
                Err(e) => {
                    proof {
                        assert(false);
                    }
                    return Err(e);
                },
            }
        }
        let ghost t0 = self@;
        proof {
            assert forall|j: int| 0 <= j < t0.nodes.len() implies (#[trigger] t0.nodes[j].id)
                != operation.id by {
                if old(self)@.stats.total_operations >= old(self)@.max_ops {
                    assert(has_id(old(self)@.nodes, t0.nodes[j].id));
                }
            }
            assert(!has_id(t0.nodes, operation.id));
            lemma_add_wf(t0, operation);
        }
        let operation_id = operation.id;
        let timestamp = operation.timestamp;
        let current = self.current_node;
        let depth: usize;
        match current {
            None => {
                depth = 0;
                self.root_node = Some(operation_id);
            },
            Some(p) => {
                let pi = match self.find_index(p) {
                    Some(pi) => pi,
                    None => {
                        proof {
                            assert(false);
                        }
                        0
                    },
                };
                proof {
                    lemma_idx_at(t0.nodes, pi as int);
                    lemma_depth_le_index(t0.nodes, pi as int);
                }
                depth = self.nodes[pi].depth + 1;
                self.node_push_child(pi, operation_id);
                self.node_set_active(pi, false);
            },
        }
        let node = HistoryNode::new(operation, current, depth);
        let ghost mid = self@.nodes;
        let ghost nv = node@;
        self.nodes.push(node);
        proof {
            assert(self@.nodes.len() == mid.len() + 1);
            assert(forall|k: int| 0 <= k < mid.len() ==> (#[trigger] self@.nodes[k]) == mid[k]);
            assert(self@.nodes.last() == nv);
        }
        self.current_node = Some(operation_id);
        self.undo_stack.push(operation_id);
        self.redo_stack.clear();
        self.stats.total_operations = self.stats.total_operations + 1;
        self.stats.current_depth = depth;
        self.stats.last_operation_time = Some(timestamp);
        proof {
            let t2 = spec_add(t0, operation);
            assert(self@.nodes =~= mid.push(nv));
            assert(mid =~~= (match t0.current {
                None => t0.nodes,
                Some(p) => t0.nodes.update(
                    idx_of(t0.nodes, p),
                    NodeView {
                        children: node_of(t0.nodes, p).children.push(operation_id),
                        is_active: false,
                        ..node_of(t0.nodes, p)
                    },
                ),
            }));
            assert(nv =~~= (NodeView {
                id: operation_id,
                operation: operation,
                parent: t0.current,
                children: Seq::empty(),
                depth: t2.nodes.last().depth,
                is_active: true,
            }));
            assert(self@.current == t2.current);
            assert(self@.root == t2.root);
            assert(self@.undo =~= t2.undo);
            assert(self@.redo =~= t2.redo);
            assert(self@.branches == t2.branches);
            assert(self@.stats == t2.stats);
            assert(self@.max_ops == t2.max_ops);
            assert(self@.nodes =~~= t2.nodes);
            assert(self@ =~~= spec_add(t0, operation));
        }
        Ok(())
    }

    /// Undo one step: move the current node's id onto the redo record and
    /// make its parent current.  Returns the operation that was undone, so
    /// the caller can apply its inverse; `None` when there is nothing to
    /// undo (which is not an error).
    pub fn undo(&mut self) -> (r: Option<&Operation>)
        requires
            old(self)@.wf(),
        ensures
            final(self)@ == spec_undo(old(self)@),
            final(self)@.wf(),
            match r {
                None => old(self)@.current is None,
                Some(op) => old(self)@.current matches Some(c) && *op == node_of(
                    old(self)@.nodes,
                    c,
                ).operation,
            },
    {
        proof {
            lemma_undo_wf(old(self)@);
        }
        let ghost t0 = self@;
        match self.current_node {
            None => None,
            Some(cur) => {
                let ci = match self.find_index(cur) {
                    Some(ci) => ci,
                    None => {
                        proof {
                            assert(false);
                        }
                        0
                    },
                };
                proof {
                    lemma_idx_at(t0.nodes, ci as int);
                    assert(t0.undo.len() > 0);
                    assert(t0.undo.last() == cur);
                }
                let popped = match self.undo_stack.pop() {
                    Some(popped) => popped,
                    None => {
                        proof {
                            assert(false);
                        }
                        cur
                    },
                };
                self.redo_stack.push(popped);
                let parent = self.nodes[ci].parent;
                self.node_set_active(ci, false);
                match parent {
                    None => {},
                    Some(p) => {
                        let pi = match self.find_index(p) {
                            Some(pi) => pi,
                            None => {
                                proof {
                                    assert(parent_ok(t0.nodes, ci as int));
                                    assert(false);
                                }
                                0
                            },
                        };
                        proof {
                            lemma_idx_at(t0.nodes, pi as int);
                        }
                        self.node_set_active(pi, true);
                    },
                }
                self.current_node = parent;
                proof {
                    assert(self@ =~~= spec_undo(t0));
                    assert(self@.nodes.len() == t0.nodes.len());
                    assert(self@.nodes[ci as int].id == cur);
                    assert(has_id(self@.nodes, cur));
                    lemma_undo_wf(t0);
                    lemma_idx_at(self@.nodes, ci as int);
                }
                let i = match self.find_index(popped) {
                    Some(i) => i,
                    None => {
                        proof {
                            assert(has_id(self@.nodes, cur));
                            assert(false);
                        }
                        0
                    },
                };
                Some(&self.nodes[i].operation)
            },
        }
    }

    /// Redo one step: restore the most recently undone operation as current.
    /// Returns the operation to reapply; `None` when there is nothing to
    /// redo (which is not an error).
    pub fn redo(&mut self) -> (r: Option<&Operation>)
        requires
            old(self)@.wf(),
        ensures
            final(self)@ == spec_redo(old(self)@),
            final(self)@.wf(),
            match r {
                None => old(self)@.redo.len() == 0,
                Some(op) => old(self)@.redo.len() > 0 && *op == node_of(
                    old(self)@.nodes,
                    old(self)@.redo.last(),
                ).operation,
            },
    {
        proof {
            lemma_redo_wf(old(self)@);
        }
        let ghost t0 = self@;
        match self.redo_stack.pop() {
            None => None,
            Some(operation_id) => {
                let ci = match self.find_index(operation_id) {
                    Some(ci) => ci,
                    None => {
                        proof {
                            assert(false);
                        }
                        0
                    },
                };
                proof {
                    lemma_idx_at(t0.nodes, ci as int);
                }
                self.undo_stack.push(operation_id);
                match self.current_node {
                    None => {},
                    Some(cur) => {
                        let cui = match self.find_index(cur) {
                            Some(cui) => cui,
                            None => {
                                proof {
                                    assert(false);
                                }
                                0
                            },
                        };
                        proof {
                            lemma_idx_at(t0.nodes, cui as int);
                        }
                        self.node_set_active(cui, false);
                    },
                }
                self.node_set_active(ci, true);
                self.current_node = Some(operation_id);
                proof {
                    assert(self@ =~~= spec_redo(t0));
                }
                let i = match self.find_index(operation_id) {
                    Some(i) => i,
                    None => {
                        proof {
                            assert(false);
                        }
                        0
                    },
                };
                Some(&self.nodes[i].operation)
            },
        }
    }

    /// The operation recorded under the given id, if the node exists.
    pub fn find_operation(&self, id: &OperationId) -> (r: Option<&Operation>)
        requires
            self@.wf(),
        ensures
            match r {
                Some(op) => self@.has(*id) && *op == self@.node(*id).operation,
                None => !self@.has(*id),
            },
    {
        match self.find_index(*id) {
            None => None,
            Some(i) => {
                proof {
                    lemma_idx_at(self@.nodes, i as int);
                }
                Some(&self.nodes[i].operation)
            },
        }
    }

    /// The aggregate statistics of this history.
    pub fn stats(&self) -> (r: &HistoryStats)
        ensures
            *r == self@.stats,
    {
        &self.stats
    }

    /// The named branches, in creation order.
    pub fn branches(&self) -> (r: &Vec<(String, OperationId)>)
        ensures
            r@ == self@.branches,
    {
        &self.branches
    }
}

impl Default for HistoryTree {
    /// An empty history with the default ceiling of 1000 operations.
    fn default() -> (r: Self)
        ensures
            r@.wf(),
            r@.nodes.len() == 0,
            r@.max_ops == 1000,
    {
        HistoryTree::new(1000)
    }
}

} // verus!

verus! {

/// The ids on the path from the root down to `id`, root first, computed by
/// following parent links for at most `fuel` steps.
pub open spec fn path_to(s: Seq<NodeView>, id: OperationId, fuel: nat) -> Seq<OperationId>
    decreases fuel,
{
    if !has_id(s, id) {
        Seq::empty()
    } else {
        match node_of(s, id).parent {
            None => seq![id],
            Some(p) => if fuel == 0 {
                seq![id]
            } else {
                path_to(s, p, (fuel - 1) as nat).push(id)
            },
        }
    }
}

/// The ids on the path from the root down to `id`, root first.
pub open spec fn spec_path(s: Seq<NodeView>, id: OperationId) -> Seq<OperationId> {
    path_to(s, id, s.len())
}

/// With enough fuel, the fuel does not matter.
pub proof fn lemma_path_to_fuel(s: Seq<NodeView>, id: OperationId, f1: nat, f2: nat)
    requires
        ids_distinct(s),
        parents_ok(s),
        has_id(s, id),
        node_of(s, id).depth <= f1,
        node_of(s, id).depth <= f2,
    ensures
        path_to(s, id, f1) == path_to(s, id, f2),
    decreases f1 + f2,
{
    let i = idx_of(s, id);
    lemma_idx_at(s, i);
    assert(parent_ok(s, i));
    match s[i].parent {
        None => {},
        Some(p) => {
            let j = choose|j: int|
                0 <= j < i && (#[trigger] s[j].id) == p && s[i].depth == s[j].depth + 1;
            lemma_idx_at(s, j);
            assert(node_of(s, p).depth + 1 == node_of(s, id).depth);
            lemma_path_to_fuel(s, p, (f1 - 1) as nat, (f2 - 1) as nat);
        },
    }
}

/// One unfolding step of `spec_path`.
pub proof fn lemma_path_unfold(s: Seq<NodeView>, id: OperationId)
    requires
        ids_distinct(s),
        parents_ok(s),
        has_id(s, id),
    ensures
        match node_of(s, id).parent {
            None => spec_path(s, id) == seq![id],
            Some(p) => has_id(s, p) && spec_path(s, id) == spec_path(s, p).push(id),
        },
{
    let i = idx_of(s, id);
    lemma_idx_at(s, i);
    assert(parent_ok(s, i));
    match s[i].parent {
        None => {},
        Some(p) => {
            let j = choose|j: int|
                0 <= j < i && (#[trigger] s[j].id) == p && s[i].depth == s[j].depth + 1;
            lemma_idx_at(s, j);
            lemma_depth_le_index(s, j);
            assert(s.len() >= 1);
            lemma_path_to_fuel(s, p, (s.len() - 1) as nat, s.len());
        },
    }
}

/// The computed path really is a root-to-`id` chain, with one entry per
/// depth level.
pub proof fn lemma_path_chain(s: Seq<NodeView>, id: OperationId)
    requires
        ids_distinct(s),
        parents_ok(s),
        has_id(s, id),
    ensures
        is_chain(s, spec_path(s, id), id),
        spec_path(s, id).len() == node_of(s, id).depth + 1,
    decreases node_of(s, id).depth,
{
    let i = idx_of(s, id);
    lemma_idx_at(s, i);
    lemma_path_unfold(s, id);
    assert(parent_ok(s, i));
    match s[i].parent {
        None => {
            assert(spec_path(s, id) == seq![id]);
            assert(spec_path(s, id)[0] == id);
        },
        Some(p) => {
            let j = choose|j: int|
                0 <= j < i && (#[trigger] s[j].id) == p && s[i].depth == s[j].depth + 1;
            lemma_idx_at(s, j);
            lemma_path_chain(s, p);
            let pp = spec_path(s, p);
            let q = spec_path(s, id);
            assert(q == pp.push(id));
            assert(q.last() == id);
            assert(q[0] == pp[0]);
            assert forall|k: int|
                1 <= k < q.len() implies node_of(s, #[trigger] q[k]).parent == Some(q[k - 1]) by {
                if k < pp.len() {
                    assert(q[k] == pp[k] && q[k - 1] == pp[k - 1]);
                } else {
                    assert(q[k] == id && q[k - 1] == pp.last());
                }
            }
        },
    }
}

/// Two root-to-`c` chains over the same nodes are the same sequence.
pub proof fn lemma_chain_unique(
    s: Seq<NodeView>,
    a: Seq<OperationId>,
    b: Seq<OperationId>,
    c: OperationId,
)
    requires
        ids_distinct(s),
        is_chain(s, a, c),
        is_chain(s, b, c),
    ensures
        a == b,
    decreases a.len(),
{
    match node_of(s, c).parent {
        None => {
            if a.len() >= 2 {
                assert(node_of(s, a[a.len() - 1]).parent == Some(a[a.len() - 2]));
                assert(false);
            }
            if b.len() >= 2 {
                assert(node_of(s, b[b.len() - 1]).parent == Some(b[b.len() - 2]));
                assert(false);
            }
            assert(a =~= b);
        },
        Some(p) => {
            if a.len() < 2 {
                assert(node_of(s, a[0]).parent is None);
                assert(false);
            }
            if b.len() < 2 {
                assert(node_of(s, b[0]).parent is None);
                assert(false);
            }
            assert(node_of(s, a.last()).parent == Some(a[a.len() - 2]));
            assert(node_of(s, b.last()).parent == Some(b[b.len() - 2]));
            let a1 = a.drop_last();
            let b1 = b.drop_last();
            assert(is_chain(s, a1, p)) by {
                assert(a1.last() == a[a.len() - 2]);
                assert(forall|k: int| 0 <= k < a1.len() ==> a1[k] == a[k]);
            }
            assert(is_chain(s, b1, p)) by {
                assert(b1.last() == b[b.len() - 2]);
                assert(forall|k: int| 0 <= k < b1.len() ==> b1[k] == b[k]);
            }
            lemma_chain_unique(s, a1, b1, p);
            assert(a =~= a1.push(c));
            assert(b =~= b1.push(c));
        },
    }
}

/// The tree after a jump to node `id`: `id` becomes current, the undo path
/// is rebuilt as the root-to-`id` path, and the redo record is discarded.
pub open spec fn spec_goto(t: TreeView, id: OperationId) -> TreeView {
    let nodes1 = match t.current {
        None => t.nodes,
        Some(cur) => t.nodes.update(
            idx_of(t.nodes, cur),
            NodeView { is_active: false, ..node_of(t.nodes, cur) },
        ),
    };
    let nodes2 = nodes1.update(
        idx_of(t.nodes, id),
        NodeView { is_active: true, ..nodes1[idx_of(t.nodes, id)] },
    );
    TreeView {
        nodes: nodes2,
        current: Some(id),
        undo: spec_path(t.nodes, id),
        redo: Seq::empty(),
        ..t
    }
}

/// A jump to an existing node preserves the tree invariant.
#[verifier::rlimit(100)]
pub proof fn lemma_goto_wf(t: TreeView, id: OperationId)
    requires
        t.wf(),
        t.has(id),
    ensures
        spec_goto(t, id).wf(),
{
    let t2 = spec_goto(t, id);
    let s = t.nodes;
    let s2 = t2.nodes;
    let ci = idx_of(s, id);
    lemma_idx_at(s, ci);
    assert(s2.len() == s.len());
    assert(forall|i: int| 0 <= i < s.len() ==> (#[trigger] s2[i].id) == s[i].id
        && s2[i].parent == s[i].parent && s2[i].depth == s[i].depth && s2[i].children
        == s[i].children && s2[i].operation == s[i].operation);
    assert(parents_ok(s2)) by {
        assert forall|i: int| 0 <= i < s2.len() implies parent_ok(s2, i) by {
            assert(parent_ok(s, i));
            match s[i].parent {
                None => {},
                Some(q) => {
                    let j = choose|j: int|
                        0 <= j < i && (#[trigger] s[j].id) == q && s[i].depth == s[j].depth + 1;
                    assert(s2[j].id == q && s2[i].depth == s2[j].depth + 1);
                },
            }
        }
    }
    assert(children_ok(s2)) by {
        assert forall|i: int, k: int|
            0 <= i < s2.len() && 0 <= k < s2[i].children.len() implies {
            let cc = #[trigger] s2[i].children[k];
            exists|j: int|
                0 <= j < s2.len() && (#[trigger] s2[j].id) == cc && s2[j].parent == Some(s2[i].id)
        } by {
            let cc = s[i].children[k];
            let j = choose|j: int|
                0 <= j < s.len() && (#[trigger] s[j].id) == cc && s[j].parent == Some(s[i].id);
            assert(s2[j].id == cc && s2[j].parent == Some(s2[i].id));
        }
        assert forall|i: int| 0 <= i < s2.len() implies match (#[trigger] s2[i].parent) {
            None => true,
            Some(q) => has_id(s2, q) && node_of(s2, q).children.contains(s2[i].id),
        } by {
            match s[i].parent {
                None => {},
                Some(q) => {
                    let qj = idx_of(s, q);
                    lemma_idx_at(s, qj);
                    lemma_idx_at(s2, qj);
                    assert(node_of(s, q).children.contains(s[i].id));
                    assert(s2[qj].children == s[qj].children);
                },
            }
        }
    }
    lemma_path_chain(s, id);
    assert(is_chain(s2, t2.undo, id)) by {
        let u = t2.undo;
        assert(is_chain(s, u, id));
        assert forall|k: int| 0 <= k < u.len() implies has_id(s2, #[trigger] u[k]) by {
            let j = idx_of(s, u[k]);
            lemma_idx_at(s, j);
            assert(s2[j].id == u[k]);
        }
        assert(node_of(s2, u[0]).parent is None) by {
            let j = idx_of(s, u[0]);
            lemma_idx_at(s, j);
            lemma_idx_at(s2, j);
        }
        assert forall|k: int|
            1 <= k < u.len() implies node_of(s2, #[trigger] u[k]).parent == Some(u[k - 1]) by {
            let j = idx_of(s, u[k]);
            lemma_idx_at(s, j);
            lemma_idx_at(s2, j);
            assert(node_of(s, u[k]).parent == Some(u[k - 1]));
        }
    }
    assert(forall|i: int|
        0 <= i < s2.len() ==> ((#[trigger] s2[i].is_active) <==> t2.current == Some(s2[i].id)));
    match t.root {
        None => {},
        Some(r) => {
            let rj = idx_of(s, r);
            lemma_idx_at(s, rj);
            lemma_idx_at(s2, rj);
        },
    }
    assert forall|k: int|
        0 <= k < t2.branches.len() implies has_id(s2, (#[trigger] t2.branches[k]).1) by {
        let b = t.branches[k].1;
        let j = idx_of(s, b);
        lemma_idx_at(s, j);
        assert(s2[j].id == b);
    }
    assert(t2.wf());
}

} // verus!

verus! {

/// The tree after registering `name` as a branch pointing at `from`.
pub open spec fn spec_create_branch(t: TreeView, name: String, from: OperationId) -> TreeView {
    TreeView {
        branches: t.branches.push((name, from)),
        stats: HistoryStats { branch_count: (t.stats.branch_count + 1) as usize, ..t.stats },
        ..t
    }
}

impl HistoryTree {
    /// Jump to an arbitrary recorded node: it becomes current, the undo path
    /// is rebuilt by walking parent links from it up to the root, and the
    /// redo record is discarded.  Fails if no node has the given id.
    pub fn goto_operation(&mut self, operation_id: OperationId) -> (r: Result<(), HistoryError>)
        requires
            old(self)@.wf(),
        ensures
            final(self)@.wf(),
            old(self)@.has(operation_id) ==> r is Ok && final(self)@ == spec_goto(
                old(self)@,
                operation_id,
            ),
            !old(self)@.has(operation_id) ==> r == Err::<(), HistoryError>(
                HistoryError::NotFound(operation_id),
            ) && final(self)@ == old(self)@,
    {
        let ghost t0 = self@;
        let ti = match self.find_index(operation_id) {
            None => {
                return Err(HistoryError::NotFound(operation_id));
            },
            Some(ti) => ti,
        };
        proof {
            lemma_idx_at(t0.nodes, ti as int);
            lemma_goto_wf(t0, operation_id);
            lemma_path_chain(t0.nodes, operation_id);
        }
        let ghost full = spec_path(t0.nodes, operation_id);
        // rebuild the undo stack: walk parent links up to the root,
        // prepending, so the result is root first
        let mut path: Vec<OperationId> = Vec::new();
        let mut cursor: Option<OperationId> = Some(operation_id);
        proof {
            lemma_path_unfold(t0.nodes, operation_id);
        }
        while cursor.is_some()
            invariant
                self == old(self),
                t0 == self@,
                t0.wf(),
                full == spec_path(t0.nodes, operation_id),
                path@.len() <= full.len(),
                forall|k: int|
                    0 <= k < path@.len() ==> (#[trigger] path@[k]) == full[full.len() - path@.len()
                        + k],
                match cursor {
                    Some(c) => has_id(t0.nodes, c) && spec_path(t0.nodes, c) == full.take(
                        full.len() - path@.len(),
                    ),
                    None => path@.len() == full.len(),
                },
            decreases (match cursor {
                Some(c) => node_of(t0.nodes, c).depth + 1,
                None => 0,
            }),
        {
            let cid = cursor.unwrap();
            proof {
                lemma_path_unfold(t0.nodes, cid);
                lemma_path_chain(t0.nodes, cid);
            }
            path.insert(0, cid);
            let i = match self.find_index(cid) {
                Some(i) => i,
                None => {
                    proof {
                        assert(false);
                    }
                    0
                },
            };
            proof {
                lemma_idx_at(t0.nodes, i as int);
                assert(parent_ok(t0.nodes, i as int));
                match t0.nodes[i as int].parent {
                    None => {},
                    Some(p) => {
                        let j = choose|j: int|
                            0 <= j < i as int && (#[trigger] t0.nodes[j].id) == p
                                && t0.nodes[i as int].depth == t0.nodes[j].depth + 1;
                        lemma_idx_at(t0.nodes, j);
                        assert(node_of(t0.nodes, p).depth + 1 == node_of(t0.nodes, cid).depth);
                        assert(spec_path(t0.nodes, cid) == spec_path(t0.nodes, p).push(cid));
                        assert(spec_path(t0.nodes, p) =~= full.take(
                            full.len() - path@.len(),
                        ));
                    },
                }
            }
            cursor = self.nodes[i].parent;
        }
        proof {
            assert(path@ =~= full);
        }
        self.undo_stack = path;
        self.redo_stack.clear();
        // move the active flag from the old current node to the new one
        match self.current_node {
            None => {},
            Some(cur) => {
                let cui = match self.find_index(cur) {
                    Some(cui) => cui,
                    None => {
                        proof {
                            assert(false);
                        }
                        0
                    },
                };
                proof {
                    lemma_idx_at(t0.nodes, cui as int);
                }
                self.node_set_active(cui, false);
            },
        }
        let ni = match self.find_index(operation_id) {
            Some(ni) => ni,
            None => {
                proof {
                    assert(false);
                }
                0
            },
        };
        proof {
            lemma_idx_at(self@.nodes, ni as int);
        }
        self.node_set_active(ni, true);
        self.current_node = Some(operation_id);
        proof {
            assert(self@ =~~= spec_goto(t0, operation_id));
        }
        Ok(())
    }

    /// The index of the branch whose name reads `name`, if any.
    fn find_branch(&self, name: &str) -> (r: Option<usize>)
        ensures
            match r {
                Some(k) => k < self@.branches.len() && self@.branches[k as int].0@ == name@,
                None => !self@.has_branch(name@),
            },
    {
        let mut k: usize = 0;
        while k < self.branches.len()
            invariant
                k <= self.branches.len(),
                self@.branches.len() == self.branches.len(),
                forall|j: int| 0 <= j < k ==> (#[trigger] self@.branches[j]).0@ != name@,
            decreases self.branches.len() - k,
        {
            if crate::text::str_eq(self.branches[k].0.as_str(), name) {
                return Some(k);
            }
            k = k + 1;
        }
        None
    }

    /// Register a branch name for an existing node.  Branches are pure
    /// naming: they create no nodes and restrict nothing.  Fails if the node
    /// does not exist or the name is already registered.
    pub fn create_branch(&mut self, branch_name: String, from_operation: OperationId) -> (r:
        Result<(), HistoryError>)
        requires
            old(self)@.wf(),
            old(self)@.stats.branch_count < usize::MAX,
        ensures
            final(self)@.wf(),
            !old(self)@.has(from_operation) ==> r == Err::<(), HistoryError>(
                HistoryError::NotFound(from_operation),
            ) && final(self)@ == old(self)@,
            old(self)@.has(from_operation) && old(self)@.has_branch(branch_name@) ==> (match r {
                Err(e) => e matches HistoryError::DuplicateBranch(n) && n@ == branch_name@,
                Ok(_) => false,
            }) && final(self)@ == old(self)@,
            old(self)@.has(from_operation) && !old(self)@.has_branch(branch_name@) ==> r is Ok
                && final(self)@ == spec_create_branch(old(self)@, branch_name, from_operation),
    {
        let ghost t0 = self@;
        if self.find_index(from_operation).is_none() {
            return Err(HistoryError::NotFound(from_operation));
        }
        if self.find_branch(branch_name.as_str()).is_some() {
            return Err(HistoryError::DuplicateBranch(branch_name));
        }
        self.branches.push((branch_name, from_operation));
        self.stats.branch_count = self.stats.branch_count + 1;
        proof {
            assert(self@ =~~= spec_create_branch(t0, branch_name, from_operation));
            assert forall|k: int|
                0 <= k < self@.branches.len() implies has_id(
                self@.nodes,
                (#[trigger] self@.branches[k]).1,
            ) by {
                if k < t0.branches.len() {
                    assert(has_id(t0.nodes, t0.branches[k].1));
                }
            }
            assert(self@.wf());
        }
        Ok(())
    }

    /// Resolve a branch name and jump to its target node.  Fails if the name
    /// is unknown.
    pub fn switch_branch(&mut self, branch_name: &str) -> (r: Result<(), HistoryError>)
        requires
            old(self)@.wf(),
        ensures
            final(self)@.wf(),
            !old(self)@.has_branch(branch_name@) ==> (match r {
                Err(e) => e matches HistoryError::UnknownBranch(n) && n@ == branch_name@,
                Ok(_) => false,
            }) && final(self)@ == old(self)@,
            old(self)@.has_branch(branch_name@) ==> r is Ok && final(self)@ == spec_goto(
                old(self)@,
                old(self)@.branch_target(branch_name@),
            ),
    {
        let ghost t0 = self@;
        match self.find_branch(branch_name) {
            None => Err(HistoryError::UnknownBranch(branch_name.to_owned())),
            Some(k) => {
                let target = self.branches[k].1;
                proof {
                    assert(t0.branch_target(branch_name@) == target) by {
                        let k2 = choose|k2: int|
                            0 <= k2 < t0.branches.len() && (#[trigger] t0.branches[k2]).0@
                                == branch_name@;
                        assert(k2 == k as int);
                    }
                    assert(has_id(t0.nodes, target));
                }
                let res = self.goto_operation(target);
                proof {
                    assert(res is Ok);
                }
                res
            },
        }
    }

    /// The operations on the path from the root to the current node, oldest
    /// first; empty when there is no current node.  The undo stack mirrors
    /// that ancestry exactly, so the result follows it.
    pub fn current_operations(&self) -> (r: Vec<&Operation>)
        requires
            self@.wf(),
        ensures
            r@.len() == self@.undo.len(),
            forall|k: int|
                0 <= k < r@.len() ==> *(#[trigger] r@[k]) == node_of(
                    self@.nodes,
                    self@.undo[k],
                ).operation,
    {
        let mut r: Vec<&Operation> = Vec::new();
        let mut k: usize = 0;
        while k < self.undo_stack.len()
            invariant
                self@.wf(),
                k <= self.undo_stack.len(),
                self@.undo.len() == self.undo_stack.len(),
                r@.len() == k,
                forall|j: int|
                    0 <= j < k ==> *(#[trigger] r@[j]) == node_of(
                        self@.nodes,
                        self@.undo[j],
                    ).operation,
            decreases self.undo_stack.len() - k,
        {
            let id = self.undo_stack[k];
            proof {
                assert(is_chain(self@.nodes, self@.undo, self@.current->Some_0));
                assert(has_id(self@.nodes, self@.undo[k as int]));
            }
            let i = match self.find_index(id) {
                Some(i) => i,
                None => {
                    proof {
                        assert(false);
                    }
                    0
                },
            };
            proof {
                lemma_idx_at(self@.nodes, i as int);
            }
            r.push(&self.nodes[i].operation);
            k = k + 1;
        }
        r
    }
}

} // verus!

verus! {

broadcast use vstd::std_specs::hash::group_hash_axioms;

impl HistoryTree {
    /// For every node, the union of its operation's explicit dependencies
    /// and an implicit dependency on its tree parent, keyed by the node's
    /// raw id.  A derived view recomputed on demand, not maintained state.
    pub fn dependency_graph(&self) -> (r: std::collections::HashMap<u64, Vec<OperationId>>)
        requires
            self@.wf(),
        ensures
            forall|id: u64| #[trigger]
                r@.contains_key(id) <==> has_id(self@.nodes, OperationId(id)),
            forall|i: int|
                0 <= i < self@.nodes.len() ==> {
                    let n = #[trigger] self@.nodes[i];
                    r@[n.id.0]@ == n.operation.dependencies@ + (match n.parent {
                        None => Seq::<OperationId>::empty(),
                        Some(p) => seq![p],
                    })
                },
    {
        broadcast use vstd::std_specs::hash::axiom_u64_obeys_hash_table_key_model;

        let mut graph: std::collections::HashMap<u64, Vec<OperationId>> =
            std::collections::HashMap::new();
        let mut i: usize = 0;
        while i < self.nodes.len()
            invariant
                self@.wf(),
                i <= self.nodes.len(),
                self@.nodes.len() == self.nodes.len(),
                vstd::std_specs::hash::obeys_key_model::<u64>(),
                forall|id: u64| #[trigger]
                    graph@.contains_key(id) <==> exists|j: int|
                        0 <= j < i && (#[trigger] self@.nodes[j].id).0 == id,
                forall|j: int|
                    0 <= j < i ==> {
                        let n = #[trigger] self@.nodes[j];
                        graph@[n.id.0]@ == n.operation.dependencies@ + (match n.parent {
                            None => Seq::<OperationId>::empty(),
                            Some(p) => seq![p],
                        })
                    },
            decreases self.nodes.len() - i,
        {
            let mut deps = vstd::slice::slice_to_vec(self.nodes[i].operation.dependencies.as_slice());
            let ghost explicit = deps@;
            match self.nodes[i].parent {
                None => {
                    proof {
                        assert(deps@ =~= explicit + Seq::<OperationId>::empty());
                    }
                },
                Some(p) => {
                    deps.push(p);
                    proof {
                        assert(deps@ =~= explicit + seq![p]);
                    }
                },
            }
            let key = self.nodes[i].id.0;
            graph.insert(key, deps);
            proof {
                lemma_idx_at(self@.nodes, i as int);
                assert forall|j: int| 0 <= j < i + 1 implies {
                    let n = #[trigger] self@.nodes[j];
                    graph@[n.id.0]@ == n.operation.dependencies@ + (match n.parent {
                        None => Seq::<OperationId>::empty(),
                        Some(p) => seq![p],
                    })
                } by {
                    if j < i {
                        assert(self@.nodes[j].id.0 != key);
                    }
                }
            }
            i = i + 1;
        }
        graph
    }
}

} // verus!

verus! {

/// Whether an operation is of a kind that compression can ever merge.
pub open spec fn mergeable_kind(t: OperationType) -> bool {
    ||| t is MoveEntities
    ||| t is ModifyVariable
}

/// Whether two adjacent operations are candidates for merging: both move
/// entities, or both modify the same variable.
pub open spec fn spec_can_merge(a: OperationType, b: OperationType) -> bool {
    match (a, b) {
        (OperationType::MoveEntities { .. }, OperationType::MoveEntities { .. }) => true,
        (
            OperationType::ModifyVariable { variable_id: v1, .. },
            OperationType::ModifyVariable { variable_id: v2, .. },
        ) => v1 == v2,
        _ => false,
    }
}

/// Whether merging actually succeeds: moves must touch the identical entity
/// id sequence and their summed offset must fit; variable changes must be to
/// the same variable.
pub open spec fn spec_merge_ok(a: OperationType, b: OperationType) -> bool {
    match (a, b) {
        (
            OperationType::MoveEntities { entity_ids: i1, offset: o1, .. },
            OperationType::MoveEntities { entity_ids: i2, offset: o2, .. },
        ) => i1@ == i2@ && Vector2::sum_fits(o1, o2),
        (
            OperationType::ModifyVariable { variable_id: v1, .. },
            OperationType::ModifyVariable { variable_id: v2, .. },
        ) => v1 == v2,
        _ => false,
    }
}

/// What the payload of a merged operation holds: for moves, the same
/// entities with the offsets summed (the simplified merge does not keep the
/// previous positions); for variable changes, the original previous value
/// and the latest new value.
pub open spec fn spec_merged_type(a: OperationType, b: OperationType, m: OperationType) -> bool {
    match (a, b) {
        (
            OperationType::MoveEntities { entity_ids: i1, offset: o1, .. },
            OperationType::MoveEntities { offset: o2, .. },
        ) => match m {
            OperationType::MoveEntities {
                entity_ids: mi,
                offset: mo,
                previous_positions: mp,
            } => mi@ == i1@ && mo.x == o1.x + o2.x && mo.y == o1.y + o2.y && mp@ == Seq::<
                Point2,
            >::empty(),
            _ => false,
        },
        (
            OperationType::ModifyVariable { variable_id: v1, previous_value: pv, .. },
            OperationType::ModifyVariable { new_value: nv, .. },
        ) => m == (OperationType::ModifyVariable {
            variable_id: v1,
            previous_value: pv,
            new_value: nv,
        }),
        _ => false,
    }
}

/// What a merged operation looks like: a brand-new operation under a fresh
/// id, stamped with the later operation's time, undoable, without explicit
/// dependencies, and with the merged payload.  Moves keep the later
/// description; variable merges describe both steps.
pub open spec fn spec_merged(op1: Operation, op2: Operation, next_id: u64, m: Operation) -> bool {
    &&& m.id == OperationId(next_id)
    &&& m.timestamp == op2.timestamp
    &&& m.can_undo
    &&& m.dependencies@ == Seq::<OperationId>::empty()
    &&& m.affected_entities@ == Seq::<EntityId>::empty()
    &&& spec_merged_type(op1.operation_type, op2.operation_type, m.operation_type)
    &&& match (op1.operation_type, op2.operation_type) {
        (OperationType::MoveEntities { .. }, OperationType::MoveEntities { .. }) => m.description
            == op2.description,
        _ => m.description@ == "Merged variable modifications: "@ + op1.description@ + " -> "@
            + op2.description@,
    }
}

/// Whether two entity id lists are equal.
fn entity_ids_eq(a: &Vec<EntityId>, b: &Vec<EntityId>) -> (r: bool)
    ensures
        r == (a@ == b@),
{
    if a.len() != b.len() {
        proof {
            assert(a@.len() != b@.len());
        }
        return false;
    }
    let mut k: usize = 0;
    while k < a.len()
        invariant
            k <= a.len(),
            a@.len() == b@.len(),
            forall|j: int| 0 <= j < k ==> a@[j] == b@[j],
        decreases a.len() - k,
    {
        if a[k].id != b[k].id || a[k].generation != b[k].generation {
            proof {
                assert(a@[k as int] != b@[k as int]);
            }
            return false;
        }
        k = k + 1;
    }
    proof {
        assert(a@ =~= b@);
    }
    true
}

impl HistoryTree {
    /// Whether compression may merge the adjacent operations `op1` (the
    /// parent) and `op2` (its child): both are moves, or both modify the
    /// same variable.  All other combinations are never merged.
    pub fn can_merge_operations(&self, op1: &Operation, op2: &Operation) -> (r: bool)
        ensures
            r == spec_can_merge(op1.operation_type, op2.operation_type),
    {
        match (&op1.operation_type, &op2.operation_type) {
            (
                OperationType::MoveEntities { .. },
                OperationType::MoveEntities { .. },
            ) => true,
            (
                OperationType::ModifyVariable { variable_id: id1, .. },
                OperationType::ModifyVariable { variable_id: id2, .. },
            ) => id1.0 == id2.0,
            _ => false,
        }
    }

    /// Merge two adjacent operations into one brand-new operation under a
    /// fresh id, or `None` when the pair is not mergeable.  Two moves merge
    /// exactly when they touch the identical entity id sequence and the
    /// summed offset fits; two changes of the same variable always merge,
    /// keeping the original previous value and the latest new value.
    pub fn merge_operations(&self, ids: &mut IdGenerator, op1: &Operation, op2: &Operation) -> (r:
        Option<Operation>)
        requires
            old(ids).wf(),
            old(ids).next() < u64::MAX,
        ensures
            final(ids).wf(),
            r is Some <==> spec_merge_ok(op1.operation_type, op2.operation_type),
            match r {
                Some(m) => spec_merged(*op1, *op2, old(ids).next(), m) && final(ids).next() == old(
                    ids,
                ).next() + 1,
                None => *final(ids) == *old(ids),
            },
    {
        match (&op1.operation_type, &op2.operation_type) {
            (
                OperationType::MoveEntities { entity_ids: ids1, offset: offset1, .. },
                OperationType::MoveEntities { entity_ids: ids2, offset: offset2, .. },
            ) => {
                if !entity_ids_eq(ids1, ids2) {
                    return None;
                }
                let offset = match offset1.checked_add(*offset2) {
                    None => {
                        return None;
                    },
                    Some(o) => o,
                };
                let m = Operation {
                    id: OperationId(ids.fresh()),
                    operation_type: OperationType::MoveEntities {
                        entity_ids: vstd::slice::slice_to_vec(ids1.as_slice()),
                        offset,
                        previous_positions: Vec::new(),
                    },
                    timestamp: op2.timestamp,
                    description: op2.description.clone(),
                    can_undo: true,
                    dependencies: Vec::new(),
                    affected_entities: Vec::new(),
                };
                proof {
                    assert(m.dependencies@ =~= Seq::<OperationId>::empty());
                    assert(m.affected_entities@ =~= Seq::<EntityId>::empty());
                    assert(m.operation_type->MoveEntities_previous_positions@ =~= Seq::<
                        Point2,
                    >::empty());
                }
                Some(m)
            },
            (
                OperationType::ModifyVariable { variable_id, previous_value, .. },
                OperationType::ModifyVariable { variable_id: vid2, new_value, .. },
            ) => {
                if variable_id.0 != vid2.0 {
                    return None;
                }
                let mut description = String::new();
                description.append("Merged variable modifications: ");
                description.append(op1.description.as_str());
                description.append(" -> ");
                description.append(op2.description.as_str());
                let m = Operation {
                    id: OperationId(ids.fresh()),
                    operation_type: OperationType::ModifyVariable {
                        variable_id: *variable_id,
                        previous_value: *previous_value,
                        new_value: *new_value,
                    },
                    timestamp: op2.timestamp,
                    description,
                    can_undo: true,
                    dependencies: Vec::new(),
                    affected_entities: Vec::new(),
                };
                proof {
                    assert(m.dependencies@ =~= Seq::<OperationId>::empty());
                    assert(m.affected_entities@ =~= Seq::<EntityId>::empty());
                    assert(m.description@ =~= "Merged variable modifications: "@
                        + op1.description@ + " -> "@ + op2.description@);
                }
                Some(m)
            },
            _ => None,
        }
    }
}

} // verus!

verus! {

/// Every non-root node's parent exists earlier in insertion order (depths
/// not considered).
pub open spec fn topo_ok(s: Seq<NodeView>) -> bool {
    forall|i: int|
        0 <= i < s.len() ==> match (#[trigger] s[i].parent) {
            None => true,
            Some(p) => exists|j: int| 0 <= j < i && (#[trigger] s[j].id) == p,
        }
}

/// The invariant that holds at every intermediate step of compression: the
/// full invariant minus depth bookkeeping and the undo path, which are both
/// rebuilt once the merges are done.
pub open spec fn loose_inv(t: TreeView) -> bool {
    &&& ids_distinct(t.nodes)
    &&& ids_nonzero(t.nodes)
    &&& topo_ok(t.nodes)
    &&& children_ok(t.nodes)
    &&& match t.current {
        None => true,
        Some(c) => has_id(t.nodes, c),
    }
    &&& forall|i: int|
        0 <= i < t.nodes.len() ==> ((#[trigger] t.nodes[i].is_active) <==> t.current == Some(
            t.nodes[i].id,
        ))
    &&& (t.root is None <==> t.nodes.len() == 0)
    &&& match t.root {
        None => true,
        Some(r) => has_id(t.nodes, r) && node_of(t.nodes, r).parent is None,
    }
    &&& forall|k: int|
        0 <= k < t.redo.len() ==> {
            &&& has_id(t.nodes, #[trigger] t.redo[k])
            &&& node_of(t.nodes, t.redo[k]).parent == (if k == t.redo.len() - 1 {
                t.current
            } else {
                Some(t.redo[k + 1])
            })
        }
    &&& forall|k: int|
        0 <= k < t.branches.len() ==> has_id(t.nodes, (#[trigger] t.branches[k]).1)
    &&& forall|k1: int, k2: int|
        0 <= k1 < k2 < t.branches.len() ==> (#[trigger] t.branches[k1]).0@ != (
        #[trigger] t.branches[k2]).0@
    &&& t.stats.branch_count == t.branches.len()
}

/// The full invariant implies the loose one.
pub proof fn lemma_wf_loose(t: TreeView)
    requires
        t.wf(),
    ensures
        loose_inv(t),
{
    assert forall|i: int| 0 <= i < t.nodes.len() implies match (#[trigger] t.nodes[i].parent) {
        None => true,
        Some(p) => exists|j: int| 0 <= j < i && (#[trigger] t.nodes[j].id) == p,
    } by {
        assert(parent_ok(t.nodes, i));
    }
}

impl HistoryTree {
    /// Replace the operation of the node at index `i`.
    fn node_set_operation(&mut self, i: usize, op: Operation)
        requires
            i < old(self)@.nodes.len(),
        ensures
            final(self)@ == (TreeView {
                nodes: old(self)@.nodes.update(
                    i as int,
                    NodeView { operation: op, ..old(self)@.nodes[i as int] },
                ),
                ..old(self)@
            }),
    {
        let ghost target = TreeView {
            nodes: old(self)@.nodes.update(
                i as int,
                NodeView { operation: op, ..old(self)@.nodes[i as int] },
            ),
            ..old(self)@
        };
        let n = &mut self.nodes[i];
        n.operation = op;
        proof {
            assert(self@.nodes =~~= target.nodes);
            assert(self@ =~~= target);
        }
    }

    /// Replace the child list of the node at index `i`.
    fn node_set_children(&mut self, i: usize, children: Vec<OperationId>)
        requires
            i < old(self)@.nodes.len(),
        ensures
            final(self)@ == (TreeView {
                nodes: old(self)@.nodes.update(
                    i as int,
                    NodeView { children: children@, ..old(self)@.nodes[i as int] },
                ),
                ..old(self)@
            }),
    {
        let ghost target = TreeView {
            nodes: old(self)@.nodes.update(
                i as int,
                NodeView { children: children@, ..old(self)@.nodes[i as int] },
            ),
            ..old(self)@
        };
        let n = &mut self.nodes[i];
        n.children = children;
        proof {
            assert(self@.nodes =~~= target.nodes);
            assert(self@ =~~= target);
        }
    }

    /// Replace the parent link of the node at index `i`.
    fn node_set_parent(&mut self, i: usize, parent: Option<OperationId>)
        requires
            i < old(self)@.nodes.len(),
        ensures
            final(self)@ == (TreeView {
                nodes: old(self)@.nodes.update(
                    i as int,
                    NodeView { parent, ..old(self)@.nodes[i as int] },
                ),
                ..old(self)@
            }),
    {
        let ghost target = TreeView {
            nodes: old(self)@.nodes.update(
                i as int,
                NodeView { parent, ..old(self)@.nodes[i as int] },
            ),
            ..old(self)@
        };
        let n = &mut self.nodes[i];
        n.parent = parent;
        proof {
            assert(self@.nodes =~~= target.nodes);
            assert(self@ =~~= target);
        }
    }

    /// Replace the depth of the node at index `i`.
    fn node_set_depth(&mut self, i: usize, depth: usize)
        requires
            i < old(self)@.nodes.len(),
        ensures
            final(self)@ == (TreeView {
                nodes: old(self)@.nodes.update(
                    i as int,
                    NodeView { depth: depth as nat, ..old(self)@.nodes[i as int] },
                ),
                ..old(self)@
            }),
    {
        let ghost target = TreeView {
            nodes: old(self)@.nodes.update(
                i as int,
                NodeView { depth: depth as nat, ..old(self)@.nodes[i as int] },
            ),
            ..old(self)@
        };
        let n = &mut self.nodes[i];
        n.depth = depth;
        proof {
            assert(self@.nodes =~~= target.nodes);
            assert(self@ =~~= target);
        }
    }

    /// Whether the redo record mentions `id`.
    fn redo_contains(&self, id: OperationId) -> (r: bool)
        ensures
            r == self@.redo.contains(id),
    {
        let mut k: usize = 0;
        while k < self.redo_stack.len()
            invariant
                k <= self.redo_stack.len(),
                self@.redo.len() == self.redo_stack.len(),
                forall|j: int| 0 <= j < k ==> (#[trigger] self@.redo[j]) != id,
            decreases self.redo_stack.len() - k,
        {
            if self.redo_stack[k].0 == id.0 {
                return true;
            }
            k = k + 1;
        }
        proof {
            assert(!self@.redo.contains(id));
        }
        false
    }

    /// Whether some named branch targets `id`.
    fn targeted_by_branch(&self, id: OperationId) -> (r: bool)
        ensures
            r == self@.is_branch_target(id),
    {
        let mut k: usize = 0;
        while k < self.branches.len()
            invariant
                k <= self.branches.len(),
                self@.branches.len() == self.branches.len(),
                forall|j: int| 0 <= j < k ==> (#[trigger] self@.branches[j]).1 != id,
            decreases self.branches.len() - k,
        {
            if self.branches[k].1.0 == id.0 {
                return true;
            }
            k = k + 1;
        }
        false
    }
}

} // verus!

verus! {

/// The index of `c` in a child list, if present.
fn find_child_pos(cs: &Vec<OperationId>, c: OperationId) -> (r: Option<usize>)
    ensures
        match r {
            Some(k) => k < cs@.len() && cs@[k as int] == c,
            None => !cs@.contains(c),
        },
{
    let mut k: usize = 0;
    while k < cs.len()
        invariant
            k <= cs.len(),
            forall|j: int| 0 <= j < k ==> (#[trigger] cs@[j]) != c,
        decreases cs.len() - k,
    {
        if cs[k].0 == c.0 {
            return Some(k);
        }
        k = k + 1;
    }
    None
}

impl HistoryTree {
    /// Splice out the child node at index `i`, folding it into its parent at
    /// index `pi`: the parent takes `merged` as its operation and adopts the
    /// child's children.  Depths and the undo path are left stale; the
    /// caller repairs them once all merges are done.
    #[verifier::rlimit(100)]
    fn merge_child_into_parent(&mut self, i: usize, pi: usize, merged: Operation)
        requires
            loose_inv(old(self)@),
            pi < i < old(self)@.nodes.len(),
            old(self)@.nodes[i as int].parent == Some(old(self)@.nodes[pi as int].id),
            old(self)@.current != Some(old(self)@.nodes[i as int].id),
            !old(self)@.is_branch_target(old(self)@.nodes[i as int].id),
            !old(self)@.redo.contains(old(self)@.nodes[i as int].id),
        ensures
            loose_inv(final(self)@),
            final(self)@.nodes.len() == old(self)@.nodes.len() - 1,
            final(self)@.current == old(self)@.current,
            final(self)@.root == old(self)@.root,
            final(self)@.undo == old(self)@.undo,
            final(self)@.redo == old(self)@.redo,
            final(self)@.branches == old(self)@.branches,
            final(self)@.stats == old(self)@.stats,
            final(self)@.max_ops == old(self)@.max_ops,
            forall|j: int|
                0 <= j < final(self)@.nodes.len() ==> {
                    let j0: int = if j < i {
                        j
                    } else {
                        j + 1
                    };
                    let n0 = old(self)@.nodes[j0];
                    let n1 = #[trigger] final(self)@.nodes[j];
                    &&& n1.id == n0.id
                    &&& n1.depth == n0.depth
                    &&& n1.is_active == n0.is_active
                    &&& n1.operation == (if j0 == pi as int {
                        merged
                    } else {
                        n0.operation
                    })
                    &&& n1.parent == (if n0.parent == Some(old(self)@.nodes[i as int].id) {
                        Some(old(self)@.nodes[pi as int].id)
                    } else {
                        n0.parent
                    })
                },
    {
        let ghost t0 = self@;
        let c = self.nodes[i].id;
        let p = self.nodes[pi].id;
        proof {
            lemma_idx_at(t0.nodes, i as int);
            lemma_idx_at(t0.nodes, pi as int);
            assert(c != p);
            assert(node_of(t0.nodes, p).children.contains(c));
        }
        let ghost cs = t0.nodes[pi as int].children;
        let ghost gcs = t0.nodes[i as int].children;
        let pos = match find_child_pos(&self.nodes[pi].children, c) {
            Some(pos) => pos,
            None => {
                proof {
                    assert(false);
                }
                0
            },
        };
        // the parent's new child list: its children without `c`, then the
        // child's children
        let mut new_children: Vec<OperationId> = Vec::new();
        let mut k: usize = 0;
        while k < self.nodes[pi].children.len()
            invariant
                self@ == t0,
                pi < i < t0.nodes.len(),
                cs == t0.nodes[pi as int].children,
                pos < cs.len() && cs[pos as int] == c,
                k <= cs.len(),
                new_children@ == (if k <= pos {
                    cs.subrange(0, k as int)
                } else {
                    cs.subrange(0, pos as int) + cs.subrange(pos as int + 1, k as int)
                }),
            decreases cs.len() - k,
        {
            if k != pos {
                let ch = self.nodes[pi].children[k];
                new_children.push(ch);
                proof {
                    if k < pos {
                        assert(new_children@ =~= cs.subrange(0, k as int + 1));
                    } else {
                        assert(new_children@ =~= cs.subrange(0, pos as int) + cs.subrange(
                            pos as int + 1,
                            k as int + 1,
                        ));
                    }
                }
            } else {
                proof {
                    assert(new_children@ =~= cs.subrange(0, pos as int) + cs.subrange(
                        pos as int + 1,
                        pos as int + 1,
                    ));
                }
            }
            k = k + 1;
        }
        proof {
            assert(new_children@ =~= cs.remove(pos as int));
        }
        let gc = vstd::slice::slice_to_vec(self.nodes[i].children.as_slice());
        let mut k2: usize = 0;
        while k2 < gc.len()
            invariant
                self@ == t0,
                gc@ == gcs,
                k2 <= gc.len(),
                new_children@ == cs.remove(pos as int) + gcs.subrange(0, k2 as int),
            decreases gc.len() - k2,
        {
            new_children.push(gc[k2]);
            proof {
                assert(new_children@ =~= cs.remove(pos as int) + gcs.subrange(0, k2 as int + 1));
            }
            k2 = k2 + 1;
        }
        proof {
            assert(new_children@ =~= cs.remove(pos as int) + gcs);
        }
        self.node_set_operation(pi, merged);
        self.node_set_children(pi, new_children);
        let ghost t1 = self@;
        proof {
            assert(t1.nodes =~~= t0.nodes.update(
                pi as int,
                NodeView {
                    operation: merged,
                    children: cs.remove(pos as int) + gcs,
                    ..t0.nodes[pi as int]
                },
            ));
        }
        // adopt the grandchildren: they now hang under the parent
        let mut g: usize = 0;
        while g < gc.len()
            invariant
                gc@ == gcs,
                g <= gc.len(),
                pi < i < t0.nodes.len(),
                loose_inv(t0),
                gcs == t0.nodes[i as int].children,
                cs == t0.nodes[pi as int].children,
                c == t0.nodes[i as int].id,
                p == t0.nodes[pi as int].id,
                t0.nodes[i as int].parent == Some(p),
                t1.nodes == t0.nodes.update(
                    pi as int,
                    NodeView {
                        operation: merged,
                        children: cs.remove(pos as int) + gcs,
                        ..t0.nodes[pi as int]
                    },
                ),
                self@.nodes.len() == t0.nodes.len(),
                self@.current == t0.current,
                self@.root == t0.root,
                self@.undo == t0.undo,
                self@.redo == t0.redo,
                self@.branches == t0.branches,
                self@.stats == t0.stats,
                self@.max_ops == t0.max_ops,
                forall|j: int|
                    0 <= j < t0.nodes.len() ==> {
                        let nb = t1.nodes[j];
                        let n1 = #[trigger] self@.nodes[j];
                        &&& n1.id == nb.id
                        &&& n1.depth == nb.depth
                        &&& n1.is_active == nb.is_active
                        &&& n1.operation == nb.operation
                        &&& n1.children == nb.children
                        &&& n1.parent == (if nb.parent == Some(c) && gcs.subrange(
                            0,
                            g as int,
                        ).contains(nb.id) {
                            Some(p)
                        } else {
                            nb.parent
                        })
                    },
            decreases gc.len() - g,
        {
            let gid = gc[g];
            proof {
                assert(gcs.contains(gid));
                let mg = choose|mg: int| 0 <= mg < gcs.len() && gcs[mg] == gid;
                assert(t0.nodes[i as int].children[mg] == gid);
                // the grandchild exists and points at the removed child
                assert(exists|w: int|
                    0 <= w < t0.nodes.len() && (#[trigger] t0.nodes[w].id) == gid
                        && t0.nodes[w].parent == Some(c));
                let w = choose|w: int|
                    0 <= w < t0.nodes.len() && (#[trigger] t0.nodes[w].id) == gid
                        && t0.nodes[w].parent == Some(c);
                assert(self@.nodes[w].id == gid);
                assert(has_id(self@.nodes, gid));
            }
            let gi = match self.find_index(gid) {
                Some(gi) => gi,
                None => {
                    proof {
                        assert(false);
                    }
                    0
                },
            };
            proof {
                let w = choose|w: int|
                    0 <= w < t0.nodes.len() && (#[trigger] t0.nodes[w].id) == gid
                        && t0.nodes[w].parent == Some(c);
                assert(ids_distinct(t0.nodes));
                assert(forall|x: int, y: int|
                    0 <= x < y < t0.nodes.len() ==> (#[trigger] self@.nodes[x].id) != (
                    #[trigger] self@.nodes[y].id));
                if gi as int != w {
                    assert(self@.nodes[gi as int].id == self@.nodes[w].id);
                    assert(false);
                }
                // the grandchild is neither the parent nor the child node
                assert(t0.nodes[gi as int].parent == Some(c));
                if gi == pi {
                    // then p's parent would be c, putting c before pi, but c
                    // sits at i > pi
                    assert(topo_ok(t0.nodes));
                    let cw = choose|cw: int|
                        0 <= cw < pi as int && (#[trigger] t0.nodes[cw].id) == c;
                    assert(t0.nodes[cw].id == t0.nodes[i as int].id);
                    assert(false);
                }
                if gi == i {
                    assert(t0.nodes[i as int].parent == Some(c));
                    assert(c == p);
                    assert(false);
                }
                // not yet reparented: gid occurs once in the child list
                assert(!gcs.subrange(0, g as int).contains(gid)) by {
                    if gcs.subrange(0, g as int).contains(gid) {
                        let m = choose|m: int|
                            0 <= m < g as int && (#[trigger] gcs.subrange(0, g as int)[m]) == gid;
                        assert(gcs.subrange(0, g as int)[m] == gcs[m]);
                        assert(t0.nodes[i as int].children[m] == gid);
                        assert(t0.nodes[i as int].children[g as int] == gid);
                        assert(children_ok(t0.nodes));
                        assert(false);
                    }
                }
            }
            self.node_set_parent(gi, Some(p));
            proof {
                assert forall|j: int| 0 <= j < t0.nodes.len() implies {
                    let nb = t1.nodes[j];
                    let n1 = #[trigger] self@.nodes[j];
                    &&& n1.id == nb.id
                    &&& n1.depth == nb.depth
                    &&& n1.is_active == nb.is_active
                    &&& n1.operation == nb.operation
                    &&& n1.children == nb.children
                    &&& n1.parent == (if nb.parent == Some(c) && gcs.subrange(
                        0,
                        g as int + 1,
                    ).contains(nb.id) {
                        Some(p)
                    } else {
                        nb.parent
                    })
                } by {
                    if j == gi as int {
                        assert(gcs.subrange(0, g as int + 1)[g as int] == gid);
                        assert(gcs.subrange(0, g as int + 1).contains(gid));
                    } else {
                        if t1.nodes[j].parent == Some(c) && gcs.subrange(0, g as int + 1).contains(
                            t1.nodes[j].id,
                        ) && !gcs.subrange(0, g as int).contains(t1.nodes[j].id) {
                            let m = choose|m: int|
                                0 <= m < g as int + 1 && (#[trigger] gcs.subrange(
                                    0,
                                    g as int + 1,
                                )[m]) == t1.nodes[j].id;
                            assert(m == g as int) by {
                                if m < g as int {
                                    assert(gcs.subrange(0, g as int)[m] == t1.nodes[j].id);
                                }
                            }
                            assert(t1.nodes[j].id == gid);
                            assert(false);
                        }
                    }
                }
            }
            g = g + 1;
        }
        let ghost t2 = self@;
        proof {
            // every node pointing at c is one of its listed children
            assert forall|j: int|
                0 <= j < t0.nodes.len() && (#[trigger] t0.nodes[j].parent) == Some(c) implies
                gcs.contains(t0.nodes[j].id) by {
                assert(children_ok(t0.nodes));
                assert(has_id(t0.nodes, c) && node_of(t0.nodes, c).children.contains(
                    t0.nodes[j].id,
                ));
                lemma_idx_at(t0.nodes, i as int);
            }
            assert(gcs =~= gcs.subrange(0, gcs.len() as int));
            assert forall|j: int| 0 <= j < t0.nodes.len() implies {
                let nb = t1.nodes[j];
                let n1 = #[trigger] t2.nodes[j];
                n1.parent == (if nb.parent == Some(c) {
                    Some(p)
                } else {
                    nb.parent
                })
            } by {
                let nb = t1.nodes[j];
                if nb.parent == Some(c) {
                    assert(t0.nodes[j].parent == Some(c));
                    assert(gcs.contains(t0.nodes[j].id));
                    assert(nb.id == t0.nodes[j].id);
                    assert(gcs.subrange(0, gc@.len() as int).contains(nb.id));
                }
            }
        }
        self.nodes.remove(i);
        proof {
            let s3 = self@.nodes;
            assert(s3 =~= t2.nodes.remove(i as int));
            assert(s3.len() == t0.nodes.len() - 1);
            // the pointwise description of the result
            assert forall|j: int| 0 <= j < s3.len() implies {
                let j0: int = if j < i {
                    j
                } else {
                    j + 1
                };
                let n0 = t0.nodes[j0];
                let n1 = #[trigger] s3[j];
                &&& n1.id == n0.id
                &&& n1.depth == n0.depth
                &&& n1.is_active == n0.is_active
                &&& n1.operation == (if j0 == pi as int {
                    merged
                } else {
                    n0.operation
                })
                &&& n1.parent == (if n0.parent == Some(c) {
                    Some(p)
                } else {
                    n0.parent
                })
                &&& n1.children == (if j0 == pi as int {
                    cs.remove(pos as int) + gcs
                } else {
                    n0.children
                })
            } by {
                let j0: int = if j < i {
                    j
                } else {
                    j + 1
                };
                assert(s3[j] == t2.nodes[j0]);
                if t0.nodes[j0].parent == Some(c) {
                    assert(gcs.contains(t0.nodes[j0].id));
                }
            }
            // and the loose invariant holds again
            lemma_splice_loose(t0, self@, i as int, pi as int, pos as int, merged);
        }
    }
}

} // verus!

verus! {

/// Splicing one merged child out of a loosely well-formed tree leaves the
/// tree loosely well-formed.
#[verifier::rlimit(100)]
proof fn lemma_splice_loose(t0: TreeView, t3: TreeView, i: int, pi: int, cpos: int, merged: Operation)
    requires
        loose_inv(t0),
        0 <= pi < i < t0.nodes.len(),
        t0.nodes[i].parent == Some(t0.nodes[pi].id),
        t0.current != Some(t0.nodes[i].id),
        !t0.is_branch_target(t0.nodes[i].id),
        !t0.redo.contains(t0.nodes[i].id),
        0 <= cpos < t0.nodes[pi].children.len(),
        t0.nodes[pi].children[cpos] == t0.nodes[i].id,
        t3.current == t0.current,
        t3.root == t0.root,
        t3.redo == t0.redo,
        t3.branches == t0.branches,
        t3.stats == t0.stats,
        t3.nodes.len() == t0.nodes.len() - 1,
        forall|j: int|
            0 <= j < t3.nodes.len() ==> {
                let j0: int = if j < i {
                    j
                } else {
                    j + 1
                };
                let n0 = t0.nodes[j0];
                let n1 = #[trigger] t3.nodes[j];
                &&& n1.id == n0.id
                &&& n1.depth == n0.depth
                &&& n1.is_active == n0.is_active
                &&& n1.operation == (if j0 == pi {
                    merged
                } else {
                    n0.operation
                })
                &&& n1.parent == (if n0.parent == Some(t0.nodes[i].id) {
                    Some(t0.nodes[pi].id)
                } else {
                    n0.parent
                })
                &&& n1.children == (if j0 == pi {
                    t0.nodes[pi].children.remove(cpos) + t0.nodes[i].children
                } else {
                    n0.children
                })
            },
    ensures
        loose_inv(t3),
{
    let s = t0.nodes;
    let s3 = t3.nodes;
    let c = s[i].id;
    let p = s[pi].id;
    let cs = s[pi].children;
    let gcs = s[i].children;
    assert(c != p);
    // every id but `c` survives, at a shifted index
    assert forall|x: int| 0 <= x < s.len() && x != i implies has_id(s3, #[trigger] s[x].id)
        && s3[if x < i {
        x
    } else {
        x - 1
    }].id == s[x].id by {
        let x3: int = if x < i {
            x
        } else {
            x - 1
        };
        assert(0 <= x3 < s3.len());
        assert(s3[x3].id == s[x].id);
    }
    assert(ids_distinct(s3));
    assert(ids_nonzero(s3));
    // a node other than the removed child never has key `c`
    assert(forall|x: int| 0 <= x < s.len() && x != i ==> (#[trigger] s[x].id) != c);
    // the grandchildren are exactly the nodes that pointed at `c`
    assert forall|x: int|
        0 <= x < s.len() && (#[trigger] s[x].parent) == Some(c) implies gcs.contains(s[x].id) by {
        assert(children_ok(s));
        assert(has_id(s, c) && node_of(s, c).children.contains(s[x].id));
        lemma_idx_at(s, i);
    }
    assert(topo_ok(s3)) by {
        assert forall|j: int| 0 <= j < s3.len() implies match (#[trigger] s3[j].parent) {
            None => true,
            Some(q) => exists|w: int| 0 <= w < j && (#[trigger] s3[w].id) == q,
        } by {
            let j0: int = if j < i {
                j
            } else {
                j + 1
            };
            match s[j0].parent {
                None => {},
                Some(q0) => {
                    if q0 == c {
                        // reparented under p; c sat at i, so this node is
                        // later than i and p at pi is earlier than it
                        let w = choose|w: int| 0 <= w < j0 && (#[trigger] s[w].id) == c;
                        assert(w == i);
                        assert(j0 > i);
                        assert(s3[pi].id == p);
                        assert(pi < j);
                    } else {
                        let w = choose|w: int| 0 <= w < j0 && (#[trigger] s[w].id) == q0;
                        assert(w != i);
                        let w3: int = if w < i {
                            w
                        } else {
                            w - 1
                        };
                        assert(s3[w3].id == q0);
                        assert(w3 < j);
                    }
                },
            }
        }
    }
    assert(children_ok(s3)) by {
        // each listed child exists and points back
        assert forall|x: int, k: int|
            0 <= x < s3.len() && 0 <= k < s3[x].children.len() implies {
            let cc = #[trigger] s3[x].children[k];
            exists|w: int|
                0 <= w < s3.len() && (#[trigger] s3[w].id) == cc && s3[w].parent == Some(s3[x].id)
        } by {
            let x0: int = if x < i {
                x
            } else {
                x + 1
            };
            let cc = s3[x].children[k];
            if x0 == pi {
                let newcs = cs.remove(cpos) + gcs;
                assert(cc == newcs[k]);
                if k < cs.len() - 1 {
                    // an original child of p, other than c
                    let korig: int = if k < cpos {
                        k
                    } else {
                        k + 1
                    };
                    assert(cc == cs[korig]);
                    assert(cc != c) by {
                        if cc == c {
                            assert(cs[korig] == cs[cpos] && korig != cpos);
                            assert(false);
                        }
                    }
                    let w = choose|w: int|
                        0 <= w < s.len() && (#[trigger] s[w].id) == cc && s[w].parent == Some(
                            s[pi].id,
                        );
                    assert(w != i);
                    let w3: int = if w < i {
                        w
                    } else {
                        w - 1
                    };
                    assert(s3[w3].id == cc);
                    assert(s[w].parent == Some(p) && p != c);
                    assert(s3[w3].parent == Some(p));
                    assert(s3[x].id == p);
                } else {
                    // an adopted grandchild
                    assert(cc == gcs[k - (cs.len() - 1)]);
                    assert(gcs.contains(cc));
                    let w = choose|w: int|
                        0 <= w < s.len() && (#[trigger] s[w].id) == cc && s[w].parent == Some(
                            s[i].id,
                        );
                    assert(w != i) by {
                        if w == i {
                            assert(s[i].parent == Some(c) && s[i].parent == Some(p));
                            assert(false);
                        }
                    }
                    let w3: int = if w < i {
                        w
                    } else {
                        w - 1
                    };
                    assert(s3[w3].id == cc);
                    assert(s3[w3].parent == Some(p));
                    assert(s3[x].id == p);
                }
            } else {
                assert(s3[x].children == s[x0].children);
                let w = choose|w: int|
                    0 <= w < s.len() && (#[trigger] s[w].id) == cc && s[w].parent == Some(
                        s[x0].id,
                    );
                assert(s[x0].id != c);
                assert(w != i) by {
                    if w == i {
                        assert(s[i].parent == Some(s[x0].id) && s[i].parent == Some(p));
                        assert(s[x0].id == p);
                        assert(x0 == pi);
                        assert(false);
                    }
                }
                let w3: int = if w < i {
                    w
                } else {
                    w - 1
                };
                assert(s3[w3].id == cc);
                assert(s3[w3].parent == Some(s[x0].id));
                assert(s3[x].id == s[x0].id);
            }
        }
        // child lists stay duplicate-free
        assert forall|x: int, k1: int, k2: int|
            0 <= x < s3.len() && 0 <= k1 < k2 < s3[x].children.len() implies (
        #[trigger] s3[x].children[k1]) != (#[trigger] s3[x].children[k2]) by {
            let x0: int = if x < i {
                x
            } else {
                x + 1
            };
            if x0 == pi {
                let newcs = cs.remove(cpos) + gcs;
                let v1 = newcs[k1];
                let v2 = newcs[k2];
                let m1: int = if k1 < cs.len() - 1 {
                    if k1 < cpos {
                        k1
                    } else {
                        k1 + 1
                    }
                } else {
                    -1
                };
                let m2: int = if k2 < cs.len() - 1 {
                    if k2 < cpos {
                        k2
                    } else {
                        k2 + 1
                    }
                } else {
                    -1
                };
                if k1 < cs.len() - 1 && k2 < cs.len() - 1 {
                    assert(v1 == cs[m1] && v2 == cs[m2] && m1 != m2);
                } else if k1 < cs.len() - 1 {
                    // one original child, one grandchild: their parents differ
                    assert(v1 == cs[m1]);
                    assert(v2 == gcs[k2 - (cs.len() - 1)]);
                    assert(v1 != c) by {
                        if v1 == c {
                            assert(cs[m1] == cs[cpos] && m1 != cpos);
                            assert(false);
                        }
                    }
                    if v1 == v2 {
                        let w1 = choose|w: int|
                            0 <= w < s.len() && (#[trigger] s[w].id) == v1 && s[w].parent == Some(
                                s[pi].id,
                            );
                        let w2 = choose|w: int|
                            0 <= w < s.len() && (#[trigger] s[w].id) == v2 && s[w].parent == Some(
                                s[i].id,
                            );
                        assert(w1 == w2);
                        assert(false);
                    }
                } else {
                    assert(v1 == gcs[k1 - (cs.len() - 1)] && v2 == gcs[k2 - (cs.len() - 1)]);
                }
            }
        }
        // every surviving node with a parent stays listed by it
        assert forall|x: int| 0 <= x < s3.len() implies match (#[trigger] s3[x].parent) {
            None => true,
            Some(q) => has_id(s3, q) && node_of(s3, q).children.contains(s3[x].id),
        } by {
            let x0: int = if x < i {
                x
            } else {
                x + 1
            };
            match s[x0].parent {
                None => {},
                Some(q0) => {
                    let newcs = cs.remove(cpos) + gcs;
                    if q0 == c {
                        // adopted: p lists it among the grandchildren
                        assert(s3[x].parent == Some(p));
                        let w3: int = if pi < i {
                            pi
                        } else {
                            pi - 1
                        };
                        assert(s3[pi].id == p);
                        lemma_idx_at(s3, pi);
                        assert(gcs.contains(s[x0].id));
                        let m = choose|m: int| 0 <= m < gcs.len() && gcs[m] == s[x0].id;
                        assert(newcs[cs.len() - 1 + m] == s[x0].id);
                        assert(node_of(s3, p).children.contains(s3[x].id));
                    } else {
                        let wq = choose|wq: int| 0 <= wq < s.len() && (#[trigger] s[wq].id) == q0;
                        assert(has_id(s, q0));
                        let wq2 = idx_of(s, q0);
                        lemma_idx_at(s, wq2);
                        assert(node_of(s, q0).children.contains(s[x0].id));
                        assert(wq2 != i) by {
                            if wq2 == i {
                                assert(q0 == c);
                                assert(false);
                            }
                        }
                        let w3: int = if wq2 < i {
                            wq2
                        } else {
                            wq2 - 1
                        };
                        assert(s3[w3].id == q0);
                        lemma_idx_at(s3, w3);
                        if wq2 == pi {
                            // p's pruned list keeps every child but c
                            assert(s3[w3].children == newcs);
                            let m = choose|m: int|
                                0 <= m < cs.len() && cs[m] == s[x0].id;
                            assert(s[x0].id != c);
                            assert(m != cpos);
                            let m3: int = if m < cpos {
                                m
                            } else {
                                m - 1
                            };
                            assert(cs.remove(cpos)[m3] == s[x0].id);
                            assert(newcs[m3] == s[x0].id);
                            assert(node_of(s3, q0).children.contains(s3[x].id));
                        } else {
                            assert(s3[w3].children == s[wq2].children);
                            assert(node_of(s3, q0).children.contains(s3[x].id));
                        }
                    }
                },
            }
        }
    }
    // the current node survives with its flag; all flags still match
    match t0.current {
        None => {},
        Some(cur) => {
            assert(cur != c);
            let wc = idx_of(s, cur);
            lemma_idx_at(s, wc);
            assert(wc != i);
            let w3: int = if wc < i {
                wc
            } else {
                wc - 1
            };
            assert(s3[w3].id == cur);
            assert(has_id(s3, cur));
        },
    }
    assert(forall|x: int|
        0 <= x < s3.len() ==> ((#[trigger] s3[x].is_active) <==> t3.current == Some(s3[x].id)));
    // the designated root survives: the removed child has a parent
    match t0.root {
        None => {
            assert(s.len() == 0);
            assert(false);
        },
        Some(r) => {
            let wr = idx_of(s, r);
            lemma_idx_at(s, wr);
            assert(wr != i) by {
                if wr == i {
                    assert(node_of(s, r).parent is None);
                    assert(false);
                }
            }
            let w3: int = if wr < i {
                wr
            } else {
                wr - 1
            };
            assert(s3[w3].id == r);
            lemma_idx_at(s3, w3);
            assert(node_of(s, r).parent is None);
            assert(s3[w3].parent == s[wr].parent);
            assert(s3.len() > 0);
        },
    }
    // the redo record survives intact: none of its ids is the removed child,
    // and their parents are redo entries or the current node, never `c`
    assert forall|k: int| 0 <= k < t3.redo.len() implies {
        &&& has_id(s3, #[trigger] t3.redo[k])
        &&& node_of(s3, t3.redo[k]).parent == (if k == t3.redo.len() - 1 {
            t3.current
        } else {
            Some(t3.redo[k + 1])
        })
    } by {
        assert(t0.redo[k] != c) by {
            assert(!t0.redo.contains(c));
        }
        let wk = idx_of(s, t0.redo[k]);
        lemma_idx_at(s, wk);
        assert(wk != i);
        let w3: int = if wk < i {
            wk
        } else {
            wk - 1
        };
        assert(s3[w3].id == t0.redo[k]);
        lemma_idx_at(s3, w3);
        assert(s[wk].parent == (if k == t0.redo.len() - 1 {
            t0.current
        } else {
            Some(t0.redo[k + 1])
        }));
        assert(s[wk].parent != Some(c)) by {
            if k == t0.redo.len() - 1 {
                assert(t0.current != Some(c));
            } else {
                assert(t0.redo[k + 1] != c) by {
                    assert(!t0.redo.contains(c));
                }
            }
        }
        assert(s3[w3].parent == s[wk].parent);
    }
    // branch targets survive
    assert forall|k: int|
        0 <= k < t3.branches.len() implies has_id(s3, (#[trigger] t3.branches[k]).1) by {
        let b = t0.branches[k].1;
        assert(b != c) by {
            if b == c {
                assert(t0.is_branch_target(c));
            }
        }
        let wb = idx_of(s, b);
        lemma_idx_at(s, wb);
        assert(wb != i);
        let w3: int = if wb < i {
            wb
        } else {
            wb - 1
        };
        assert(s3[w3].id == b);
    }
}

} // verus!

verus! {

impl HistoryTree {
    /// The root-to-`target` path, root first, found by walking parent links.
    fn build_path(&self, target: OperationId) -> (path: Vec<OperationId>)
        requires
            ids_distinct(self@.nodes),
            parents_ok(self@.nodes),
            has_id(self@.nodes, target),
        ensures
            path@ == spec_path(self@.nodes, target),
    {
        let ghost s = self@.nodes;
        let ghost full = spec_path(s, target);
        proof {
            lemma_path_chain(s, target);
        }
        let mut path: Vec<OperationId> = Vec::new();
        let mut cursor: Option<OperationId> = Some(target);
        while cursor.is_some()
            invariant
                s == self@.nodes,
                ids_distinct(s),
                parents_ok(s),
                full == spec_path(s, target),
                path@.len() <= full.len(),
                forall|k: int|
                    0 <= k < path@.len() ==> (#[trigger] path@[k]) == full[full.len() - path@.len()
                        + k],
                match cursor {
                    Some(c) => has_id(s, c) && spec_path(s, c) == full.take(
                        full.len() - path@.len(),
                    ),
                    None => path@.len() == full.len(),
                },
            decreases (match cursor {
                Some(c) => node_of(s, c).depth + 1,
                None => 0,
            }),
        {
            let cid = cursor.unwrap();
            proof {
                lemma_path_unfold(s, cid);
                lemma_path_chain(s, cid);
            }
            path.insert(0, cid);
            let i = match self.find_index(cid) {
                Some(i) => i,
                None => {
                    proof {
                        assert(false);
                    }
                    0
                },
            };
            proof {
                lemma_idx_at(s, i as int);
                assert(parent_ok(s, i as int));
                match s[i as int].parent {
                    None => {},
                    Some(p) => {
                        let j = choose|j: int|
                            0 <= j < i as int && (#[trigger] s[j].id) == p && s[i as int].depth
                                == s[j].depth + 1;
                        lemma_idx_at(s, j);
                        assert(node_of(s, p).depth + 1 == node_of(s, cid).depth);
                        assert(spec_path(s, cid) == spec_path(s, p).push(cid));
                        assert(spec_path(s, p) =~= full.take(full.len() - path@.len()));
                    },
                }
            }
            cursor = self.nodes[i].parent;
        }
        proof {
            assert(path@ =~= full);
        }
        path
    }

    /// Recompute every node's depth from its parent, in insertion order;
    /// parents come first, so one forward pass suffices.
    fn repair_depths(&mut self)
        requires
            loose_inv(old(self)@),
        ensures
            loose_inv(final(self)@),
            parents_ok(final(self)@.nodes),
            final(self)@.nodes.len() == old(self)@.nodes.len(),
            final(self)@.current == old(self)@.current,
            final(self)@.root == old(self)@.root,
            final(self)@.undo == old(self)@.undo,
            final(self)@.redo == old(self)@.redo,
            final(self)@.branches == old(self)@.branches,
            final(self)@.stats == old(self)@.stats,
            final(self)@.max_ops == old(self)@.max_ops,
            forall|j: int|
                0 <= j < final(self)@.nodes.len() ==> {
                    let n0 = old(self)@.nodes[j];
                    let n1 = #[trigger] final(self)@.nodes[j];
                    n1.id == n0.id && n1.parent == n0.parent && n1.children == n0.children
                        && n1.operation == n0.operation && n1.is_active == n0.is_active
                },
    {
        let ghost t0 = self@;
        let mut k: usize = 0;
        while k < self.nodes.len()
            invariant
                loose_inv(self@),
                k <= self.nodes.len(),
                self@.nodes.len() == t0.nodes.len(),
                self.nodes.len() == t0.nodes.len(),
                self@.current == t0.current,
                self@.root == t0.root,
                self@.undo == t0.undo,
                self@.redo == t0.redo,
                self@.branches == t0.branches,
                self@.stats == t0.stats,
                self@.max_ops == t0.max_ops,
                forall|j: int|
                    0 <= j < t0.nodes.len() ==> {
                        let n0 = t0.nodes[j];
                        let n1 = #[trigger] self@.nodes[j];
                        n1.id == n0.id && n1.parent == n0.parent && n1.children == n0.children
                            && n1.operation == n0.operation && n1.is_active == n0.is_active
                    },
                forall|j: int| 0 <= j < k ==> parent_ok(self@.nodes, j),
                forall|j: int| 0 <= j < k ==> (#[trigger] self@.nodes[j].depth) <= j,
            decreases self.nodes.len() - k,
        {
            let ghost before = self@;
            match self.nodes[k].parent {
                None => {
                    self.node_set_depth(k, 0);
                },
                Some(p) => {
                    proof {
                        assert(topo_ok(before.nodes));
                        assert(before.nodes[k as int].parent == Some(p));
                        assert(exists|j: int|
                            0 <= j < k && (#[trigger] before.nodes[j].id) == p);
                    }
                    let pj = match self.find_index(p) {
                        Some(pj) => pj,
                        None => {
                            proof {
                                assert(has_id(before.nodes, p));
                                assert(false);
                            }
                            0
                        },
                    };
                    proof {
                        let j = choose|j: int|
                            0 <= j < k && (#[trigger] before.nodes[j].id) == p;
                        lemma_idx_at(before.nodes, j);
                        lemma_idx_at(before.nodes, pj as int);
                        assert(pj as int == j);
                        assert(before.nodes[pj as int].depth <= pj as int);
                    }
                    let d = self.nodes[pj].depth;
                    self.node_set_depth(k, d + 1);
                },
            }
            proof {
                match before.nodes[k as int].parent {
                    None => {
                        lemma_loose_depth_update(before, k as int, 0);
                    },
                    Some(_) => {
                        lemma_loose_depth_update(
                            before,
                            k as int,
                            self@.nodes[k as int].depth,
                        );
                    },
                }
                assert(loose_inv(self@)) by {
                    assert(self@ =~~= (TreeView {
                        nodes: before.nodes.update(
                            k as int,
                            NodeView {
                                depth: self@.nodes[k as int].depth,
                                ..before.nodes[k as int]
                            },
                        ),
                        ..before
                    }));
                    lemma_loose_depth_update(before, k as int, self@.nodes[k as int].depth);
                }
                assert forall|j: int| 0 <= j < k + 1 implies parent_ok(self@.nodes, j) by {
                    if j < k {
                        assert(parent_ok(before.nodes, j));
                        match before.nodes[j].parent {
                            None => {},
                            Some(q) => {
                                let w = choose|w: int|
                                    0 <= w < j && (#[trigger] before.nodes[w].id) == q
                                        && before.nodes[j].depth == before.nodes[w].depth + 1;
                                assert(self@.nodes[w].id == q && self@.nodes[j].depth
                                    == self@.nodes[w].depth + 1);
                            },
                        }
                    } else {
                        match self@.nodes[k as int].parent {
                            None => {},
                            Some(q) => {
                                let w = choose|w: int|
                                    0 <= w < k && (#[trigger] before.nodes[w].id) == q;
                                assert(self@.nodes[w].id == q && self@.nodes[k as int].depth
                                    == self@.nodes[w].depth + 1);
                            },
                        }
                    }
                }
            }
            k = k + 1;
        }
    }
}

} // verus!



verus! {

/// Changing one node's depth does not disturb the loose invariant, which
/// never mentions depths.
#[verifier::rlimit(100)]
#[verifier::spinoff_prover]
proof fn lemma_loose_depth_update(t: TreeView, k: int, d: nat)
    requires
        loose_inv(t),
        0 <= k < t.nodes.len(),
    ensures
        loose_inv(
            TreeView { nodes: t.nodes.update(k, NodeView { depth: d, ..t.nodes[k] }), ..t },
        ),
{
    let s = t.nodes;
    let s2 = s.update(k, NodeView { depth: d, ..s[k] });
    let t2 = TreeView { nodes: s2, ..t };
    assert(forall|i: int|
        0 <= i < s.len() ==> (#[trigger] s2[i].id) == s[i].id && s2[i].parent == s[i].parent
            && s2[i].children == s[i].children && s2[i].is_active == s[i].is_active
            && s2[i].operation == s[i].operation);
    assert(topo_ok(s2)) by {
        assert forall|i: int| 0 <= i < s2.len() implies match (#[trigger] s2[i].parent) {
            None => true,
            Some(p) => exists|j: int| 0 <= j < i && (#[trigger] s2[j].id) == p,
        } by {
            match s[i].parent {
                None => {},
                Some(p) => {
                    let j = choose|j: int| 0 <= j < i && (#[trigger] s[j].id) == p;
                    assert(s2[j].id == p);
                },
            }
        }
    }
    assert(children_exist(s2)) by {
        assert forall|i: int, kk: int|
            0 <= i < s2.len() && 0 <= kk < s2[i].children.len() implies {
            let cc = #[trigger] s2[i].children[kk];
            exists|j: int|
                0 <= j < s2.len() && (#[trigger] s2[j].id) == cc && s2[j].parent == Some(s2[i].id)
        } by {
            let cc = s[i].children[kk];
            let j = choose|j: int|
                0 <= j < s.len() && (#[trigger] s[j].id) == cc && s[j].parent == Some(s[i].id);
            assert(s2[j].id == cc && s2[j].parent == Some(s2[i].id));
        }
    }
    assert(children_distinct(s2)) by {
        assert forall|i: int, k1: int, k2: int|
            0 <= i < s2.len() && 0 <= k1 < k2 < s2[i].children.len() implies (
        #[trigger] s2[i].children[k1]) != (#[trigger] s2[i].children[k2]) by {
            assert(s2[i].children == s[i].children);
            assert(s[i].children[k1] != s[i].children[k2]);
        }
    }
    assert(children_complete(s2)) by {
        assert forall|i: int| 0 <= i < s2.len() implies match (#[trigger] s2[i].parent) {
            None => true,
            Some(q) => has_id(s2, q) && node_of(s2, q).children.contains(s2[i].id),
        } by {
            match s[i].parent {
                None => {},
                Some(q) => {
                    let qj = idx_of(s, q);
                    lemma_idx_at(s, qj);
                    lemma_idx_at(s2, qj);
                    assert(node_of(s, q).children.contains(s[i].id));
                    assert(s2[qj].children == s[qj].children);
                },
            }
        }
    }
    assert(children_ok(s2));
    match t.current {
        None => {},
        Some(c) => {
            let ci = idx_of(s, c);
            lemma_idx_at(s, ci);
            assert(s2[ci].id == c);
        },
    }
    match t.root {
        None => {},
        Some(r) => {
            let ri = idx_of(s, r);
            lemma_idx_at(s, ri);
            lemma_idx_at(s2, ri);
        },
    }
    assert forall|kk: int| 0 <= kk < t2.redo.len() implies {
        &&& has_id(s2, #[trigger] t2.redo[kk])
        &&& node_of(s2, t2.redo[kk]).parent == (if kk == t2.redo.len() - 1 {
            t2.current
        } else {
            Some(t2.redo[kk + 1])
        })
    } by {
        let j = idx_of(s, t.redo[kk]);
        lemma_idx_at(s, j);
        lemma_idx_at(s2, j);
        assert(node_of(s, t.redo[kk]).parent == (if kk == t.redo.len() - 1 {
            t.current
        } else {
            Some(t.redo[kk + 1])
        }));
    }
    assert forall|kk: int|
        0 <= kk < t2.branches.len() implies has_id(s2, (#[trigger] t2.branches[kk]).1) by {
        let j = idx_of(s, t.branches[kk].1);
        lemma_idx_at(s, j);
        assert(s2[j].id == t.branches[kk].1);
    }
}

} // verus!

verus! {

/// What compression promises: navigation state, branches and the redo
/// record are untouched, nodes are only ever removed (never added), the
/// savings counter grows by exactly the number of removed nodes, and any
/// node whose operation is of a kind that merging never touches survives
/// with its operation intact.  Compression is also obliged to work: when
/// the tree holds an unprotected mergeable pair, the node count drops, and
/// with exactly one such pair, precisely the child disappears while the
/// parent takes the merged payload (for moves: the same entities, the
/// offsets summed).  The current node is never merged into or away: it
/// keeps its operation, and its children all survive.
pub open spec fn compress_rel(t: TreeView, t2: TreeView) -> bool {
    &&& t2.current == t.current
    &&& t2.root == t.root
    &&& t2.redo == t.redo
    &&& t2.branches == t.branches
    &&& t2.max_ops == t.max_ops
    &&& t2.nodes.len() <= t.nodes.len()
    &&& t2.stats.total_operations == t.stats.total_operations
    &&& t2.stats.current_depth == t.stats.current_depth
    &&& t2.stats.branch_count == t.stats.branch_count
    &&& t2.stats.last_operation_time == t.stats.last_operation_time
    &&& t2.stats.compression_savings == t.stats.compression_savings + t.nodes.len()
        - t2.nodes.len()
    &&& forall|j: int|
        0 <= j < t2.nodes.len() ==> has_id(t.nodes, (#[trigger] t2.nodes[j]).id)
    &&& forall|j: int|
        0 <= j < t.nodes.len() && !mergeable_kind(
            (#[trigger] t.nodes[j]).operation.operation_type,
        ) ==> has_id(t2.nodes, t.nodes[j].id) && node_of(t2.nodes, t.nodes[j].id).operation
            == t.nodes[j].operation
    &&& (has_mergeable_pair(t) ==> t2.nodes.len() < t.nodes.len())
    &&& forall|i: int, pj: int|
        #[trigger] lone_mergeable_pair(t, i, pj) ==> {
            &&& t2.nodes.len() == t.nodes.len() - 1
            &&& !has_id(t2.nodes, t.nodes[i].id)
            &&& has_id(t2.nodes, t.nodes[pj].id)
            &&& spec_merged_type(
                t.nodes[pj].operation.operation_type,
                t.nodes[i].operation.operation_type,
                node_of(t2.nodes, t.nodes[pj].id).operation.operation_type,
            )
        }
    &&& match t.current {
        None => true,
        Some(c) => has_id(t2.nodes, c) && node_of(t2.nodes, c).operation == node_of(
            t.nodes,
            c,
        ).operation && forall|j: int|
            0 <= j < t.nodes.len() && (#[trigger] t.nodes[j].parent) == Some(c) ==> has_id(
                t2.nodes,
                t.nodes[j].id,
            )
    }
}

impl HistoryTree {
    /// Bound memory growth by merging mergeable parent-child pairs into one
    /// node each: consecutive moves of the same entities become one move
    /// with the summed offset, consecutive changes of one variable become
    /// one change.  A node is never merged away while it is the current
    /// node, a child of the current node, a named branch target, or on the
    /// redo record.  Depths and the undo path are rebuilt afterwards.
    #[verifier::rlimit(100)]
    #[verifier::spinoff_prover]
    pub fn compress_history(&mut self, ids: &mut IdGenerator) -> (r: Result<(), HistoryError>)
        requires
            old(self)@.wf(),
            old(ids).wf(),
            old(ids).next() + old(self)@.nodes.len() <= u64::MAX,
        ensures
            r is Ok,
            final(self)@.wf(),
            final(ids).wf(),
            compress_rel(old(self)@, final(self)@),
    {
        let ghost t0 = self@;
        proof {
            lemma_wf_loose(t0);
        }
        let ghost lone_exists = exists|i: int, pj: int| lone_mergeable_pair(t0, i, pj);
        let ghost (li, lpj): (int, int) = if lone_exists {
            choose|i: int, pj: int| lone_mergeable_pair(t0, i, pj)
        } else {
            (0int, 0int)
        };
        proof {
            match t0.current {
                None => {},
                Some(c) => {
                    assert forall|j: int|
                        0 <= j < t0.nodes.len() && (#[trigger] t0.nodes[j].parent) == Some(
                        c,
                    ) implies has_id(t0.nodes, t0.nodes[j].id) && node_of(
                        t0.nodes,
                        t0.nodes[j].id,
                    ).parent == Some(c) by {
                        lemma_idx_at(t0.nodes, j);
                    }
                },
            }
        }
        let mut removed: usize = 0;
        let mut i: usize = 0;
        while i < self.nodes.len()
            invariant
                loose_inv(self@),
                i <= self.nodes.len(),
                self.nodes.len() == self@.nodes.len(),
                self@.nodes.len() + removed == t0.nodes.len(),
                t0.nodes.len() <= usize::MAX,
                self@.current == t0.current,
                self@.root == t0.root,
                self@.undo == t0.undo,
                self@.redo == t0.redo,
                self@.branches == t0.branches,
                self@.stats == t0.stats,
                self@.max_ops == t0.max_ops,
                ids.wf(),
                ids.next() + self@.nodes.len() <= u64::MAX,
                forall|j: int|
                    0 <= j < self@.nodes.len() ==> has_id(
                        t0.nodes,
                        (#[trigger] self@.nodes[j]).id,
                    ),
                forall|j: int|
                    0 <= j < t0.nodes.len() && !mergeable_kind(
                        (#[trigger] t0.nodes[j]).operation.operation_type,
                    ) ==> has_id(self@.nodes, t0.nodes[j].id) && node_of(
                        self@.nodes,
                        t0.nodes[j].id,
                    ).operation == t0.nodes[j].operation,
                t0.wf(),
                removed == 0 ==> self@ == t0 && (forall|j: int|
                    0 <= j < i ==> !(#[trigger] mergeable_pair_at(t0, j))),
                lone_exists ==> lone_mergeable_pair(t0, li, lpj),
                (lone_exists && removed == 0) ==> i as int <= li,
                (lone_exists && removed != 0) ==> removed == 1 && !has_id(
                    self@.nodes,
                    t0.nodes[li].id,
                ) && has_id(self@.nodes, t0.nodes[lpj].id) && spec_merged_type(
                    t0.nodes[lpj].operation.operation_type,
                    t0.nodes[li].operation.operation_type,
                    node_of(self@.nodes, t0.nodes[lpj].id).operation.operation_type,
                ) && (forall|j: int|
                    0 <= j < self@.nodes.len() && (#[trigger] self@.nodes[j]).id
                        != t0.nodes[lpj].id ==> !mergeable_kind(
                        self@.nodes[j].operation.operation_type,
                    )),
                match t0.current {
                    None => true,
                    Some(c) => has_id(self@.nodes, c) && node_of(self@.nodes, c).operation
                        == node_of(t0.nodes, c).operation && (forall|j: int|
                        0 <= j < t0.nodes.len() && (#[trigger] t0.nodes[j].parent) == Some(c)
                            ==> has_id(self@.nodes, t0.nodes[j].id) && node_of(
                            self@.nodes,
                            t0.nodes[j].id,
                        ).parent == Some(c)),
                },
            decreases self@.nodes.len() - i,
        {
            let ghost tb = self@;
            let cid = self.nodes[i].id;
            let parent_opt = self.nodes[i].parent;
            match parent_opt {
                None => {
                    proof {
                        if removed == 0 {
                            assert(!mergeable_pair_at(t0, i as int));
                            if lone_exists {
                                assert(mergeable_pair_at(t0, li));
                                assert(i as int != li);
                            }
                        }
                    }
                    i = i + 1;
                },
                Some(p) => {
                    let protected = (match self.current_node {
                        Some(cur) => cur.0 == cid.0 || cur.0 == p.0,
                        None => false,
                    }) || self.targeted_by_branch(cid) || self.redo_contains(cid);
                    if protected {
                        proof {
                            if removed == 0 {
                                assert(!mergeable_pair_at(t0, i as int)) by {
                                    if mergeable_pair_at(t0, i as int) {
                                        assert(t0.current != Some(cid));
                                        assert(t0.current != Some(p));
                                        assert(!t0.is_branch_target(cid));
                                        assert(!t0.redo.contains(cid));
                                        match t0.current {
                                            None => {},
                                            Some(cur) => {
                                                assert(cur.0 != cid.0 && cur.0 != p.0);
                                            },
                                        }
                                        assert(false);
                                    }
                                }
                                if lone_exists {
                                    assert(mergeable_pair_at(t0, li));
                                    assert(i as int != li);
                                }
                            }
                        }
                        i = i + 1;
                    } else {
                        proof {
                            assert(topo_ok(tb.nodes));
                            assert(tb.nodes[i as int].parent == Some(p));
                            assert(exists|w: int|
                                0 <= w < i && (#[trigger] tb.nodes[w].id) == p);
                        }
                        let pi = match self.find_index(p) {
                            Some(pi) => pi,
                            None => {
                                proof {
                                    assert(false);
                                }
                                0
                            },
                        };
                        proof {
                            let w = choose|w: int|
                                0 <= w < i && (#[trigger] tb.nodes[w].id) == p;
                            lemma_idx_at(tb.nodes, w);
                            lemma_idx_at(tb.nodes, pi as int);
                            assert(pi as int == w);
                        }
                        let can = self.can_merge_operations(
                            &self.nodes[pi].operation,
                            &self.nodes[i].operation,
                        );
                        if can {
                            let merged_opt = self.merge_operations(
                                ids,
                                &self.nodes[pi].operation,
                                &self.nodes[i].operation,
                            );
                            match merged_opt {
                                None => {
                                    proof {
                                        if removed == 0 {
                                            assert(!mergeable_pair_at(t0, i as int)) by {
                                                if mergeable_pair_at(t0, i as int) {
                                                    assert(node_of(t0.nodes, p)
                                                        == t0.nodes[pi as int]);
                                                    assert(spec_merge_ok(
                                                        t0.nodes[pi as int].operation.operation_type,
                                                        t0.nodes[i as int].operation.operation_type,
                                                    ));
                                                    assert(false);
                                                }
                                            }
                                            if lone_exists {
                                                assert(mergeable_pair_at(t0, li));
                                                assert(i as int != li);
                                            }
                                        }
                                    }
                                    i = i + 1;
                                },
                                Some(merged) => {
                                    proof {
                                        assert(tb.current != Some(tb.nodes[i as int].id));
                                        assert(!tb.is_branch_target(tb.nodes[i as int].id));
                                        assert(!tb.redo.contains(tb.nodes[i as int].id));
                                        assert(mergeable_kind(
                                            tb.nodes[i as int].operation.operation_type,
                                        ));
                                        assert(mergeable_kind(
                                            tb.nodes[pi as int].operation.operation_type,
                                        ));
                                        assert(mergeable_kind(merged.operation_type));
                                        if lone_exists && removed != 0 {
                                            // after the one merge, only the absorbing
                                            // parent is still of a mergeable kind, so a
                                            // second merge is impossible
                                            assert(tb.nodes[i as int].id == t0.nodes[lpj].id);
                                            assert(tb.nodes[pi as int].id == t0.nodes[lpj].id);
                                            assert(false);
                                        }
                                        if removed == 0 {
                                            assert(mergeable_pair_at(t0, i as int)) by {
                                                assert(t0.nodes[i as int].parent == Some(p));
                                                assert(node_of(t0.nodes, p)
                                                    == t0.nodes[pi as int]);
                                                match t0.current {
                                                    None => {},
                                                    Some(cur) => {
                                                        assert(cur.0 != cid.0 && cur.0 != p.0);
                                                    },
                                                }
                                            }
                                            if lone_exists {
                                                lemma_lone_pair_unique(
                                                    t0,
                                                    li,
                                                    lpj,
                                                    i as int,
                                                    pi as int,
                                                );
                                                assert(i as int == li && pi as int == lpj);
                                            }
                                        }
                                    }
                                    self.merge_child_into_parent(i, pi, merged);
                                    proof {
                                        assert(removed < t0.nodes.len());
                                    }
                                    removed = removed + 1;
                                    proof {
                                        lemma_compress_step_facts(
                                            t0,
                                            tb,
                                            self@,
                                            i as int,
                                            pi as int,
                                            merged,
                                            lone_exists,
                                            li,
                                            lpj,
                                        );
                                    }
                                },
                            }
                        } else {
                            proof {
                                if removed == 0 {
                                    assert(!mergeable_pair_at(t0, i as int)) by {
                                        if mergeable_pair_at(t0, i as int) {
                                            assert(node_of(t0.nodes, p) == t0.nodes[pi as int]);
                                            lemma_merge_ok_kinds(
                                                t0.nodes[pi as int].operation.operation_type,
                                                t0.nodes[i as int].operation.operation_type,
                                            );
                                            assert(false);
                                        }
                                    }
                                    if lone_exists {
                                        assert(mergeable_pair_at(t0, li));
                                        assert(i as int != li);
                                    }
                                }
                            }
                            i = i + 1;
                        }
                    }
                },
            }
        }
        let ghost tc = self@;
        // depths may be stale after splices: recompute them, then rebuild
        // the undo path to the unchanged current node
        self.repair_depths();
        match self.current_node {
            None => {
                proof {
                    assert(self@.undo == t0.undo);
                    assert(self@.undo.len() == 0);
                }
            },
            Some(cur) => {
                let path = self.build_path(cur);
                self.undo_stack = path;
                proof {
                    lemma_path_chain(self@.nodes, cur);
                }
            },
        }
        let ghost tr = self@;
        proof {
            assert(removed + tr.nodes.len() == t0.nodes.len());
            assert(tr.stats.compression_savings + removed <= tr.stats.total_operations);
            assert forall|j: int| 0 <= j < tr.nodes.len() implies has_id(
                t0.nodes,
                (#[trigger] tr.nodes[j]).id,
            ) by {
                assert(tr.nodes[j].id == tc.nodes[j].id);
            }
            // a tree holding a mergeable pair was actually compressed
            if has_mergeable_pair(t0) && removed == 0 {
                let j = choose|j: int| #[trigger] mergeable_pair_at(t0, j);
                assert(!mergeable_pair_at(t0, j));
                assert(false);
            }
            // with a lone pair, exactly the child went and the parent holds
            // the merged payload
            assert forall|i2: int, pj2: int| #[trigger] lone_mergeable_pair(
                t0,
                i2,
                pj2,
            ) implies {
                &&& tr.nodes.len() == t0.nodes.len() - 1
                &&& !has_id(tr.nodes, t0.nodes[i2].id)
                &&& has_id(tr.nodes, t0.nodes[pj2].id)
                &&& spec_merged_type(
                    t0.nodes[pj2].operation.operation_type,
                    t0.nodes[i2].operation.operation_type,
                    node_of(tr.nodes, t0.nodes[pj2].id).operation.operation_type,
                )
            } by {
                assert(lone_exists);
                assert(lone_mergeable_pair(t0, li, lpj));
                lemma_lone_pair_unique(t0, i2, pj2, li, lpj);
                assert(li == i2 && lpj == pj2);
                assert(mergeable_pair_at(t0, li));
                assert(has_mergeable_pair(t0));
                assert(removed == 1);
                assert(!has_id(tr.nodes, t0.nodes[i2].id)) by {
                    if has_id(tr.nodes, t0.nodes[i2].id) {
                        let w = choose|w: int|
                            0 <= w < tr.nodes.len() && (#[trigger] tr.nodes[w].id) == t0.nodes[
                            i2
                        ].id;
                        assert(tc.nodes[w].id == t0.nodes[i2].id);
                        assert(has_id(tc.nodes, t0.nodes[li].id));
                        assert(false);
                    }
                }
                let wp = idx_of(tc.nodes, t0.nodes[lpj].id);
                lemma_idx_at(tc.nodes, wp);
                assert(tr.nodes[wp].id == t0.nodes[lpj].id && tr.nodes[wp].operation == tc.nodes[
                    wp
                ].operation);
                lemma_idx_at(tr.nodes, wp);
            }
            // the current node kept its operation and all its children
            match t0.current {
                None => {},
                Some(c) => {
                    let wc = idx_of(tc.nodes, c);
                    lemma_idx_at(tc.nodes, wc);
                    assert(tr.nodes[wc].id == c && tr.nodes[wc].operation == tc.nodes[
                        wc
                    ].operation);
                    lemma_idx_at(tr.nodes, wc);
                    assert(node_of(tr.nodes, c).operation == node_of(t0.nodes, c).operation);
                    assert forall|j: int|
                        0 <= j < t0.nodes.len() && (#[trigger] t0.nodes[j].parent) == Some(
                        c,
                    ) implies has_id(tr.nodes, t0.nodes[j].id) by {
                        assert(has_id(tc.nodes, t0.nodes[j].id));
                        let w = idx_of(tc.nodes, t0.nodes[j].id);
                        lemma_idx_at(tc.nodes, w);
                        assert(tr.nodes[w].id == t0.nodes[j].id);
                    }
                },
            }
            assert forall|j: int|
                0 <= j < t0.nodes.len() && !mergeable_kind(
                (#[trigger] t0.nodes[j]).operation.operation_type,
            ) implies has_id(tr.nodes, t0.nodes[j].id) && node_of(
                tr.nodes,
                t0.nodes[j].id,
            ).operation == t0.nodes[j].operation by {
                let x = t0.nodes[j].id;
                assert(has_id(tc.nodes, x));
                let w = idx_of(tc.nodes, x);
                lemma_idx_at(tc.nodes, w);
                assert(tr.nodes[w].id == x && tr.nodes[w].operation == tc.nodes[w].operation);
                lemma_idx_at(tr.nodes, w);
                assert(node_of(tc.nodes, x).operation == t0.nodes[j].operation);
            }
        }
        self.stats.compression_savings = self.stats.compression_savings + removed;
        proof {
            assert(self@.nodes == tr.nodes);
            assert(self@.wf()) by {
                assert(loose_inv(self@));
                assert(parents_ok(self@.nodes));
                match self@.current {
                    None => {},
                    Some(c) => {
                        assert(is_chain(self@.nodes, self@.undo, c));
                    },
                }
                assert(self@.stats.compression_savings + self@.nodes.len()
                    <= self@.stats.total_operations);
            }
            assert(compress_rel(t0, self@));
        }
        Ok(())
    }
}

} // verus!

verus! {

/// The indentation for a node at the given depth: two spaces per level.
pub open spec fn spec_indent(depth: nat) -> Seq<char>
    decreases depth,
{
    if depth == 0 {
        Seq::empty()
    } else {
        spec_indent((depth - 1) as nat) + "  "@
    }
}

/// One line per node: indentation, an active-path marker, the node's key and
/// the operation's description, then the node's subtree, one level deeper.
/// `fuel` bounds the recursion; a tree's depth is below its node count, so
/// any fuel beyond that renders the whole subtree.
pub open spec fn spec_render_node(s: Seq<NodeView>, id: OperationId, depth: nat, fuel: nat) -> Seq<
    char,
>
    decreases fuel, 0int,
{
    if fuel == 0 || !has_id(s, id) {
        Seq::empty()
    } else {
        let n = node_of(s, id);
        spec_indent(depth) + (if n.is_active {
            "* "@
        } else {
            "  "@
        }) + crate::text::spec_decimal(id.0 as nat) + ": "@ + n.operation.description@ + "\n"@
            + spec_render_children(s, n.children, 0, depth + 1, (fuel - 1) as nat)
    }
}

/// The renderings of the children from position `k` on, in order.
pub open spec fn spec_render_children(
    s: Seq<NodeView>,
    cs: Seq<OperationId>,
    k: int,
    depth: nat,
    fuel: nat,
) -> Seq<char>
    decreases fuel, cs.len() - k + 1,
{
    if k < 0 || k >= cs.len() {
        Seq::empty()
    } else {
        spec_render_node(s, cs[k], depth, fuel) + spec_render_children(s, cs, k + 1, depth, fuel)
    }
}

/// The rendering of the whole tree, from the designated root.
pub open spec fn spec_tree_string(t: TreeView) -> Seq<char> {
    match t.root {
        None => Seq::empty(),
        Some(rt) => spec_render_node(t.nodes, rt, 0, t.nodes.len() + 1),
    }
}

impl HistoryTree {
    /// Append the rendering of the subtree under `id` to `out`.
    fn render_node(&self, id: OperationId, depth: usize, fuel: usize, out: &mut String)
        requires
            ids_distinct(self@.nodes),
            depth + fuel <= usize::MAX,
        ensures
            final(out)@ == old(out)@ + spec_render_node(
                self@.nodes,
                id,
                depth as nat,
                fuel as nat,
            ),
        decreases fuel,
    {
        let ghost s = self@.nodes;
        let ghost target = old(out)@ + spec_render_node(s, id, depth as nat, fuel as nat);
        if fuel == 0 {
            proof {
                assert(out@ =~= target);
            }
            return ;
        }
        let i = match self.find_index(id) {
            None => {
                proof {
                    assert(out@ =~= target);
                }
                return ;
            },
            Some(i) => i,
        };
        proof {
            lemma_idx_at(s, i as int);
        }
        let ghost entry = out@;
        let mut d: usize = 0;
        while d < depth
            invariant
                d <= depth,
                out@ == entry + spec_indent(d as nat),
            decreases depth - d,
        {
            out.append("  ");
            proof {
                assert(out@ =~= entry + spec_indent(d as nat + 1));
            }
            d = d + 1;
        }
        if self.nodes[i].is_active {
            out.append("* ");
        } else {
            out.append("  ");
        }
        crate::text::push_decimal(out, id.0);
        out.append(": ");
        out.append(self.nodes[i].operation.description.as_str());
        out.append("\n");
        let ghost header = out@;
        let ghost cs = s[i as int].children;
        proof {
            assert(header =~= entry + spec_indent(depth as nat) + (if s[i as int].is_active {
                "* "@
            } else {
                "  "@
            }) + crate::text::spec_decimal(id.0 as nat) + ": "@
                + s[i as int].operation.description@ + "\n"@);
        }
        let cnt = self.nodes[i].children.len();
        let mut k: usize = 0;
        while k < cnt
            invariant
                ids_distinct(self@.nodes),
                s == self@.nodes,
                cs == s[i as int].children,
                i < self.nodes.len(),
                self@.nodes.len() == self.nodes.len(),
                cnt == self.nodes[i as int].children.len(),
                k <= cnt,
                depth + fuel <= usize::MAX,
                fuel >= 1,
                out@ + spec_render_children(s, cs, k as int, depth as nat + 1, (fuel - 1) as nat)
                    == header + spec_render_children(s, cs, 0, depth as nat + 1, (fuel - 1) as nat),
            decreases cnt - k,
        {
            let c = self.nodes[i].children[k];
            let ghost before = out@;
            self.render_node(c, depth + 1, fuel - 1, out);
            proof {
                assert(out@ + spec_render_children(
                    s,
                    cs,
                    k as int + 1,
                    depth as nat + 1,
                    (fuel - 1) as nat,
                ) =~= before + spec_render_children(
                    s,
                    cs,
                    k as int,
                    depth as nat + 1,
                    (fuel - 1) as nat,
                ));
            }
            k = k + 1;
        }
        proof {
            assert(spec_render_children(s, cs, cnt as int, depth as nat + 1, (fuel - 1) as nat)
                =~= Seq::<char>::empty());
            assert(out@ =~= out@ + spec_render_children(
                s,
                cs,
                cnt as int,
                depth as nat + 1,
                (fuel - 1) as nat,
            ));
            assert(out@ =~= target);
        }
    }

    /// A human-readable, depth-indented dump of the whole tree rooted at the
    /// designated root, with `*` marking the current node's line.
    pub fn tree_string(&self) -> (r: String)
        requires
            self@.wf(),
            self@.nodes.len() < usize::MAX,
        ensures
            r@ == spec_tree_string(self@),
    {
        let mut result = String::new();
        match self.root_node {
            None => {},
            Some(rt) => {
                let fuel = self.nodes.len() + 1;
                self.render_node(rt, 0, fuel, &mut result);
            },
        }
        result
    }
}

} // verus!

verus! {

/// A merge that succeeds involves candidates of mergeable kinds.
pub proof fn lemma_merge_ok_kinds(a: OperationType, b: OperationType)
    requires
        spec_merge_ok(a, b),
    ensures
        spec_can_merge(a, b),
        mergeable_kind(a),
        mergeable_kind(b),
{
}

/// The node at index `i` is a child that compression is obliged to merge
/// into its parent: the pair is mergeable and none of the protections apply
/// (the child is not current, its parent is not current, and the child is
/// neither a branch target nor on the redo record).
pub open spec fn mergeable_pair_at(t: TreeView, i: int) -> bool {
    &&& 0 <= i < t.nodes.len()
    &&& match t.nodes[i].parent {
        None => false,
        Some(p) => has_id(t.nodes, p) && spec_merge_ok(
            node_of(t.nodes, p).operation.operation_type,
            t.nodes[i].operation.operation_type,
        ),
    }
    &&& t.current != Some(t.nodes[i].id)
    &&& t.current != t.nodes[i].parent
    &&& !t.is_branch_target(t.nodes[i].id)
    &&& !t.redo.contains(t.nodes[i].id)
}

/// Some pair in the tree is there to be merged.
pub open spec fn has_mergeable_pair(t: TreeView) -> bool {
    exists|i: int| #[trigger] mergeable_pair_at(t, i)
}

/// The tree holds exactly one merge opportunity: the pair of the child at
/// index `i` and its parent at index `pj`, with every other node's
/// operation of a kind that merging never touches.
pub open spec fn lone_mergeable_pair(t: TreeView, i: int, pj: int) -> bool {
    &&& mergeable_pair_at(t, i)
    &&& 0 <= pj < t.nodes.len()
    &&& t.nodes[i].parent == Some(t.nodes[pj].id)
    &&& forall|k: int|
        0 <= k < t.nodes.len() && k != i && k != pj ==> !mergeable_kind(
            (#[trigger] t.nodes[k]).operation.operation_type,
        )
}

/// With a lone mergeable pair in the tree, any mergeable pair is that one.
pub proof fn lemma_lone_pair_unique(t: TreeView, i1: int, pj1: int, i2: int, pj2: int)
    requires
        t.wf(),
        lone_mergeable_pair(t, i1, pj1),
        mergeable_pair_at(t, i2),
        0 <= pj2 < t.nodes.len(),
        t.nodes[i2].parent == Some(t.nodes[pj2].id),
    ensures
        i2 == i1,
        pj2 == pj1,
{
    let s = t.nodes;
    let p2 = s[pj2].id;
    lemma_idx_at(s, pj2);
    assert(node_of(s, p2) == s[pj2]);
    lemma_merge_ok_kinds(s[pj2].operation.operation_type, s[i2].operation.operation_type);
    // the parent of a node sits strictly earlier
    assert(parent_ok(s, i2));
    let w = choose|w: int|
        0 <= w < i2 && (#[trigger] s[w].id) == p2 && s[i2].depth == s[w].depth + 1;
    lemma_idx_at(s, w);
    assert(w == pj2);
    assert(pj2 < i2);
    // and so is the lone pair's parent
    let p1 = s[pj1].id;
    assert(parent_ok(s, i1));
    let w1 = choose|w1: int|
        0 <= w1 < i1 && (#[trigger] s[w1].id) == p1 && s[i1].depth == s[w1].depth + 1;
    lemma_idx_at(s, w1);
    assert(w1 == pj1);
    assert(pj1 < i1);
    // both members of the second pair are of mergeable kind, so both lie in
    // the lone pair
    assert(mergeable_kind(s[i2].operation.operation_type));
    assert(mergeable_kind(s[pj2].operation.operation_type));
    assert(i2 == i1 || i2 == pj1);
    assert(pj2 == i1 || pj2 == pj1);
    if i2 == pj1 {
        assert(pj2 < pj1 < i1);
        assert(false);
    }
    assert(s[pj2].id == s[pj1].id);
    if pj2 != pj1 {
        assert(false);
    }
}

} // verus!

verus! {

/// What one merge step leaves behind, for the compression loop's records:
/// every surviving key comes from the input tree, nodes of unmergeable
/// kinds keep their operations, the current node and its children are
/// untouched, and when the input held a lone mergeable pair the result
/// holds exactly its merged form.
#[verifier::rlimit(100)]
#[verifier::spinoff_prover]
proof fn lemma_compress_step_facts(
    t0: TreeView,
    tb: TreeView,
    ta: TreeView,
    i: int,
    pi: int,
    merged: Operation,
    lone_exists: bool,
    li: int,
    lpj: int,
)
    requires
        t0.wf(),
        loose_inv(tb),
        loose_inv(ta),
        0 <= pi < i < tb.nodes.len(),
        tb.nodes[i].parent == Some(tb.nodes[pi].id),
        ta.nodes.len() == tb.nodes.len() - 1,
        forall|j: int|
            0 <= j < ta.nodes.len() ==> {
                let j0: int = if j < i {
                    j
                } else {
                    j + 1
                };
                let n0 = tb.nodes[j0];
                let n1 = #[trigger] ta.nodes[j];
                &&& n1.id == n0.id
                &&& n1.operation == (if j0 == pi {
                    merged
                } else {
                    n0.operation
                })
                &&& n1.parent == (if n0.parent == Some(tb.nodes[i].id) {
                    Some(tb.nodes[pi].id)
                } else {
                    n0.parent
                })
            },
        tb.current == t0.current,
        mergeable_kind(tb.nodes[i].operation.operation_type),
        mergeable_kind(tb.nodes[pi].operation.operation_type),
        mergeable_kind(merged.operation_type),
        spec_merged_type(
            tb.nodes[pi].operation.operation_type,
            tb.nodes[i].operation.operation_type,
            merged.operation_type,
        ),
        t0.current != Some(tb.nodes[i].id),
        t0.current != Some(tb.nodes[pi].id),
        forall|j: int| 0 <= j < tb.nodes.len() ==> has_id(t0.nodes, (#[trigger] tb.nodes[j]).id),
        forall|j: int|
            0 <= j < t0.nodes.len() && !mergeable_kind(
                (#[trigger] t0.nodes[j]).operation.operation_type,
            ) ==> has_id(tb.nodes, t0.nodes[j].id) && node_of(tb.nodes, t0.nodes[j].id).operation
                == t0.nodes[j].operation,
        match t0.current {
            None => true,
            Some(c) => has_id(tb.nodes, c) && node_of(tb.nodes, c).operation == node_of(
                t0.nodes,
                c,
            ).operation && (forall|j: int|
                0 <= j < t0.nodes.len() && (#[trigger] t0.nodes[j].parent) == Some(c) ==> has_id(
                    tb.nodes,
                    t0.nodes[j].id,
                ) && node_of(tb.nodes, t0.nodes[j].id).parent == Some(c)),
        },
        lone_exists ==> lone_mergeable_pair(t0, li, lpj) && tb == t0 && i == li && pi == lpj,
    ensures
        forall|j: int| 0 <= j < ta.nodes.len() ==> has_id(t0.nodes, (#[trigger] ta.nodes[j]).id),
        forall|j: int|
            0 <= j < t0.nodes.len() && !mergeable_kind(
                (#[trigger] t0.nodes[j]).operation.operation_type,
            ) ==> has_id(ta.nodes, t0.nodes[j].id) && node_of(ta.nodes, t0.nodes[j].id).operation
                == t0.nodes[j].operation,
        match t0.current {
            None => true,
            Some(c) => has_id(ta.nodes, c) && node_of(ta.nodes, c).operation == node_of(
                t0.nodes,
                c,
            ).operation && (forall|j: int|
                0 <= j < t0.nodes.len() && (#[trigger] t0.nodes[j].parent) == Some(c) ==> has_id(
                    ta.nodes,
                    t0.nodes[j].id,
                ) && node_of(ta.nodes, t0.nodes[j].id).parent == Some(c)),
        },
        lone_exists ==> !has_id(ta.nodes, t0.nodes[li].id) && has_id(ta.nodes, t0.nodes[lpj].id)
            && spec_merged_type(
            t0.nodes[lpj].operation.operation_type,
            t0.nodes[li].operation.operation_type,
            node_of(ta.nodes, t0.nodes[lpj].id).operation.operation_type,
        ) && (forall|j: int|
            0 <= j < ta.nodes.len() && (#[trigger] ta.nodes[j]).id != t0.nodes[lpj].id
                ==> !mergeable_kind(ta.nodes[j].operation.operation_type)),
{
    let cid = tb.nodes[i].id;
    let p = tb.nodes[pi].id;
    assert forall|j: int| 0 <= j < ta.nodes.len() implies has_id(
        t0.nodes,
        (#[trigger] ta.nodes[j]).id,
    ) by {
        let j0: int = if j < i {
            j
        } else {
            j + 1
        };
        assert(ta.nodes[j].id == tb.nodes[j0].id);
    }
    assert forall|j: int|
        0 <= j < t0.nodes.len() && !mergeable_kind(
        (#[trigger] t0.nodes[j]).operation.operation_type,
    ) implies has_id(ta.nodes, t0.nodes[j].id) && node_of(ta.nodes, t0.nodes[j].id).operation
        == t0.nodes[j].operation by {
        let x = t0.nodes[j].id;
        assert(has_id(tb.nodes, x));
        let w = idx_of(tb.nodes, x);
        lemma_idx_at(tb.nodes, w);
        assert(tb.nodes[w].operation == t0.nodes[j].operation);
        assert(w != i) by {
            if w == i {
                assert(mergeable_kind(tb.nodes[i].operation.operation_type));
                assert(false);
            }
        }
        assert(w != pi) by {
            if w == pi {
                assert(mergeable_kind(tb.nodes[pi].operation.operation_type));
                assert(false);
            }
        }
        let w3: int = if w < i {
            w
        } else {
            w - 1
        };
        assert(ta.nodes[w3].id == x);
        assert(ta.nodes[w3].operation == tb.nodes[w].operation);
        lemma_idx_at(ta.nodes, w3);
    }
    match t0.current {
        None => {},
        Some(c) => {
            let wc = idx_of(tb.nodes, c);
            lemma_idx_at(tb.nodes, wc);
            assert(wc != i && wc != pi) by {
                assert(tb.nodes[wc].id == c);
                assert(c != cid && c != p);
            }
            let wc3: int = if wc < i {
                wc
            } else {
                wc - 1
            };
            assert(ta.nodes[wc3].id == c);
            assert(ta.nodes[wc3].operation == tb.nodes[wc].operation);
            lemma_idx_at(ta.nodes, wc3);
            assert forall|j: int|
                0 <= j < t0.nodes.len() && (#[trigger] t0.nodes[j].parent) == Some(c) implies
            has_id(ta.nodes, t0.nodes[j].id) && node_of(ta.nodes, t0.nodes[j].id).parent == Some(
                c,
            ) by {
                assert(has_id(tb.nodes, t0.nodes[j].id));
                assert(node_of(tb.nodes, t0.nodes[j].id).parent == Some(c));
                let w = idx_of(tb.nodes, t0.nodes[j].id);
                lemma_idx_at(tb.nodes, w);
                assert(w != i) by {
                    if w == i {
                        assert(tb.nodes[i].parent == Some(p));
                        assert(c == p);
                        assert(false);
                    }
                }
                let w3: int = if w < i {
                    w
                } else {
                    w - 1
                };
                assert(ta.nodes[w3].id == t0.nodes[j].id);
                assert(tb.nodes[w].parent != Some(cid));
                assert(ta.nodes[w3].parent == Some(c));
                lemma_idx_at(ta.nodes, w3);
            }
        },
    }
    if lone_exists {
        assert(!has_id(ta.nodes, t0.nodes[li].id)) by {
            if has_id(ta.nodes, t0.nodes[li].id) {
                let w = choose|w: int|
                    0 <= w < ta.nodes.len() && (#[trigger] ta.nodes[w].id) == t0.nodes[li].id;
                let w0: int = if w < i {
                    w
                } else {
                    w + 1
                };
                assert(ta.nodes[w].id == tb.nodes[w0].id);
                assert(w0 != li);
                assert(false);
            }
        }
        assert(ta.nodes[lpj].id == t0.nodes[lpj].id);
        assert(ta.nodes[lpj].operation == merged);
        assert(has_id(ta.nodes, t0.nodes[lpj].id));
        lemma_idx_at(ta.nodes, lpj);
        assert forall|j: int|
            0 <= j < ta.nodes.len() && (#[trigger] ta.nodes[j]).id != t0.nodes[lpj].id implies
        !mergeable_kind(ta.nodes[j].operation.operation_type) by {
            let j0: int = if j < i {
                j
            } else {
                j + 1
            };
            assert(ta.nodes[j].id == tb.nodes[j0].id);
            assert(j0 != li);
            if j0 != lpj {
                assert(!mergeable_kind(t0.nodes[j0].operation.operation_type));
                assert(ta.nodes[j].operation == tb.nodes[j0].operation);
            }
        }
    }
}

} // verus!
