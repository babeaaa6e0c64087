//! System-wide laws of the history tree, stated over the ghost tree model
//! and proved once and for all.  Each law speaks about the transition
//! functions that the exec methods of [`crate::history::HistoryTree`] are
//! specified against, so it holds of every run of the library.

use crate::history::Operation;
use crate::history::OperationId;
use crate::history::TreeView;
use crate::history::compress_rel;
use crate::history::has_id;
use crate::history::has_mergeable_pair;
use crate::history::lone_mergeable_pair;
use crate::history::spec_merged_type;
use crate::history::is_chain;
use crate::history::lemma_chain_unique;
use crate::history::lemma_goto_wf;
use crate::history::lemma_path_chain;
use crate::history::mergeable_kind;
use crate::history::node_of;
use crate::history::spec_add;
use crate::history::spec_create_branch;
use crate::history::spec_goto;
use crate::history::spec_path;
use crate::history::spec_redo;
use crate::history::spec_undo;
use vstd::prelude::*;

verus! {

/// The state after recording each operation of `ops` in order.
pub open spec fn apply_adds(t: TreeView, ops: Seq<Operation>) -> TreeView
    decreases ops.len(),
{
    if ops.len() == 0 {
        t
    } else {
        spec_add(apply_adds(t, ops.drop_last()), ops.last())
    }
}

/// The state after `n` undos.
pub open spec fn apply_undos(t: TreeView, n: nat) -> TreeView
    decreases n,
{
    if n == 0 {
        t
    } else {
        apply_undos(spec_undo(t), (n - 1) as nat)
    }
}

/// The state after `n` redos.
pub open spec fn apply_redos(t: TreeView, n: nat) -> TreeView
    decreases n,
{
    if n == 0 {
        t
    } else {
        apply_redos(spec_redo(t), (n - 1) as nat)
    }
}

/// A fresh edit discards the redo record: after any `add_operation`, a
/// `redo` finds nothing to do and leaves the tree unchanged.  In
/// particular, after "add A, add B, undo, add C" the redo record is empty.
pub proof fn lemma_no_redo_after_edit(t: TreeView, op: Operation)
    requires
        t.wf(),
    ensures
        spec_add(t, op).redo.len() == 0,
        spec_redo(spec_add(t, op)) == spec_add(t, op),
{
}

/// Branch isolation: once `name` is registered for node `x`, switching to
/// that branch makes `x` current and rebuilds the undo path as the
/// root-to-`x` chain, no matter what was added after `x` or where the
/// editing session stood.
pub proof fn lemma_branch_isolation(t: TreeView, name: String, x: OperationId)
    requires
        t.wf(),
        t.has(x),
        !t.has_branch(name@),
        t.stats.branch_count < usize::MAX,
    ensures
        ({
            let tb = spec_create_branch(t, name, x);
            let ts = spec_goto(tb, tb.branch_target(name@));
            &&& tb.branch_target(name@) == x
            &&& ts.current == Some(x)
            &&& ts.undo.len() > 0
            &&& ts.undo.last() == x
            &&& is_chain(ts.nodes, ts.undo, x)
            &&& ts.wf()
        }),
{
    let tb = spec_create_branch(t, name, x);
    assert(tb.branches[t.branches.len() as int] == (name, x));
    assert(tb.has_branch(name@));
    let k = choose|k: int|
        0 <= k < tb.branches.len() && (#[trigger] tb.branches[k]).0@ == name@;
    assert(k == t.branches.len() as int) by {
        if k < t.branches.len() {
            assert(t.branches[k].0@ == name@);
            assert(t.has_branch(name@));
        }
    }
    assert(tb.branch_target(name@) == x);
    assert(tb.wf()) by {
        assert forall|j: int|
            0 <= j < tb.branches.len() implies has_id(tb.nodes, (#[trigger] tb.branches[j]).1) by {
            if j < t.branches.len() {
                assert(has_id(t.nodes, t.branches[j].1));
            }
        }
        assert forall|k1: int, k2: int|
            0 <= k1 < k2 < tb.branches.len() implies (#[trigger] tb.branches[k1]).0@ != (
        #[trigger] tb.branches[k2]).0@ by {
            if k2 == t.branches.len() as int {
                assert(tb.branches[k1].0@ == t.branches[k1].0@);
                if tb.branches[k1].0@ == name@ {
                    assert(t.has_branch(name@));
                }
            }
        }
    }
    lemma_goto_wf(tb, x);
    let ts = spec_goto(tb, x);
    assert(is_chain(ts.nodes, ts.undo, x));
}

/// Compression never touches a node whose operation is of a kind that
/// merging does not apply to.  In particular a `CreateEntity` followed by a
/// `DeleteEntity` (different types) leaves both nodes intact, with their
/// operations unchanged.
pub proof fn lemma_unmergeable_pair_preserved(t: TreeView, t2: TreeView, j: int, pj: int)
    requires
        compress_rel(t, t2),
        0 <= j < t.nodes.len(),
        0 <= pj < t.nodes.len(),
        t.nodes[j].parent == Some(t.nodes[pj].id),
        t.nodes[pj].operation.operation_type is CreateEntity,
        t.nodes[j].operation.operation_type is DeleteEntity,
    ensures
        has_id(t2.nodes, t.nodes[pj].id),
        node_of(t2.nodes, t.nodes[pj].id).operation == t.nodes[pj].operation,
        has_id(t2.nodes, t.nodes[j].id),
        node_of(t2.nodes, t.nodes[j].id).operation == t.nodes[j].operation,
{
    assert(!mergeable_kind(t.nodes[pj].operation.operation_type));
    assert(!mergeable_kind(t.nodes[j].operation.operation_type));
}

/// Compression is obliged to act: whenever the tree holds an unprotected
/// mergeable parent-child pair, compressing strictly reduces the node count.
pub proof fn lemma_compression_acts(t: TreeView, t2: TreeView)
    requires
        compress_rel(t, t2),
        has_mergeable_pair(t),
    ensures
        t2.nodes.len() < t.nodes.len(),
{
}

/// Merge correctness: on a tree holding exactly one unprotected mergeable
/// pair, compression removes exactly the child node, and the parent node's
/// operation takes the merged payload — for two moves of the same entities,
/// the same entity ids with the offsets summed; for two changes of one
/// variable, the original previous value and the latest new value.
pub proof fn lemma_merge_correctness(t: TreeView, t2: TreeView, i: int, pj: int)
    requires
        compress_rel(t, t2),
        lone_mergeable_pair(t, i, pj),
    ensures
        t2.nodes.len() == t.nodes.len() - 1,
        !has_id(t2.nodes, t.nodes[i].id),
        has_id(t2.nodes, t.nodes[pj].id),
        spec_merged_type(
            t.nodes[pj].operation.operation_type,
            t.nodes[i].operation.operation_type,
            node_of(t2.nodes, t.nodes[pj].id).operation.operation_type,
        ),
{
}

/// After a jump to node `id`, the undo path is the root-to-`id` path of the
/// tree and nothing else: it does not depend on the undo or redo state the
/// jump started from, and any root-to-`id` chain equals it.
pub proof fn lemma_goto_rebuild(t1: TreeView, t2: TreeView, id: OperationId)
    requires
        t1.wf(),
        t2.wf(),
        t1.nodes == t2.nodes,
        t1.has(id),
    ensures
        spec_goto(t1, id).undo == spec_goto(t2, id).undo,
        spec_goto(t1, id).undo == spec_path(t1.nodes, id),
        is_chain(t1.nodes, spec_goto(t1, id).undo, id),
        spec_goto(t1, id).redo.len() == 0,
        forall|c: Seq<OperationId>|
            is_chain(t1.nodes, c, id) ==> c == spec_goto(t1, id).undo,
{
    lemma_path_chain(t1.nodes, id);
    assert forall|c: Seq<OperationId>|
        is_chain(t1.nodes, c, id) implies c == spec_goto(t1, id).undo by {
        lemma_chain_unique(t1.nodes, c, spec_path(t1.nodes, id), id);
    }
}

} // verus!

verus! {

/// The view of a freshly created history with the given ceiling.
pub open spec fn empty_tree(max_ops: nat) -> TreeView {
    TreeView {
        nodes: Seq::empty(),
        current: None,
        root: None,
        undo: Seq::empty(),
        redo: Seq::empty(),
        branches: Seq::empty(),
        stats: crate::history::HistoryStats {
            total_operations: 0,
            current_depth: 0,
            branch_count: 0,
            compression_savings: 0,
            last_operation_time: None,
        },
        max_ops,
    }
}

/// The operations all carry distinct, non-null ids.
pub open spec fn ops_well_formed(ops: Seq<Operation>) -> bool {
    &&& forall|k: int| 0 <= k < ops.len() ==> (#[trigger] ops[k].id).0 != 0
    &&& forall|k1: int, k2: int|
        0 <= k1 < k2 < ops.len() ==> (#[trigger] ops[k1].id) != (#[trigger] ops[k2].id)
}

/// The shape of a history built by recording `ops` as one linear chain from
/// an empty tree, then undoing back to position `m`: the first `m` ids lie
/// on the undo path and the rest on the redo record, most recently undone
/// last.  Recording leaves `m == ops.len()`; a full undo leaves `m == 0`.
pub open spec fn chain_state(t: TreeView, ops: Seq<Operation>, m: int, max_ops: nat) -> bool {
    &&& 0 <= m <= ops.len()
    &&& t.nodes.len() == ops.len()
    &&& forall|k: int|
        0 <= k < ops.len() ==> {
            let n = #[trigger] t.nodes[k];
            &&& n.id == ops[k].id
            &&& n.operation == ops[k]
            &&& n.parent == (if k == 0 {
                None::<OperationId>
            } else {
                Some(ops[k - 1].id)
            })
            &&& n.children =~= (if k == ops.len() - 1 {
                Seq::<OperationId>::empty()
            } else {
                seq![ops[k + 1].id]
            })
            &&& n.depth == k
            &&& (n.is_active <==> (m > 0 && k == m - 1))
        }
    &&& t.current == (if m == 0 {
        None::<OperationId>
    } else {
        Some(ops[m - 1].id)
    })
    &&& t.root == (if ops.len() == 0 {
        None::<OperationId>
    } else {
        Some(ops[0].id)
    })
    &&& t.undo.len() == m
    &&& forall|j: int| 0 <= j < m ==> (#[trigger] t.undo[j]) == ops[j].id
    &&& t.redo.len() == ops.len() - m
    &&& forall|j: int|
        0 <= j < ops.len() - m ==> (#[trigger] t.redo[j]) == ops[ops.len() - 1 - j].id
    &&& t.branches.len() == 0
    &&& t.stats.total_operations == ops.len()
    &&& t.stats.current_depth == (if ops.len() == 0 {
        0
    } else {
        ops.len() - 1
    })
    &&& t.max_ops == max_ops
}

/// Recording one more fresh operation extends the chain shape by one.
#[verifier::rlimit(100)]
#[verifier::spinoff_prover]
pub proof fn lemma_add_extends_chain(t: TreeView, ops: Seq<Operation>, op: Operation, max_ops: nat)
    requires
        t.wf(),
        ops_well_formed(ops.push(op)),
        chain_state(t, ops, ops.len() as int, max_ops),
        ops.len() < usize::MAX,
    ensures
        spec_add(t, op).wf(),
        chain_state(spec_add(t, op), ops.push(op), ops.len() as int + 1, max_ops),
{
    let ops2 = ops.push(op);
    let n = ops.len() as int;
    assert(!has_id(t.nodes, op.id)) by {
        if has_id(t.nodes, op.id) {
            let w = choose|w: int| 0 <= w < t.nodes.len() && (#[trigger] t.nodes[w].id) == op.id;
            assert(t.nodes[w].id == ops[w].id);
            assert(ops2[w].id == ops2[n].id);
        }
    }
    assert(op.id.0 != 0) by {
        assert(ops2[n].id.0 != 0);
    }
    crate::history::lemma_add_wf(t, op);
    let t1 = spec_add(t, op);
    if n == 0 {
        assert(t.current is None);
        assert(t1.nodes.len() == 1);
        assert(t1.nodes[0].children =~= Seq::<OperationId>::empty());
        assert(t1.undo[0] == op.id);
        assert(chain_state(t1, ops2, 1, max_ops));
    } else {
        assert(t.current == Some(ops[n - 1].id));
        let pid = ops[n - 1].id;
        assert(t.nodes[n - 1].id == pid);
        crate::history::lemma_idx_at(t.nodes, n - 1);
        assert(crate::history::idx_of(t.nodes, pid) == n - 1);
        assert(t1.nodes.len() == ops2.len());
        assert forall|k: int| 0 <= k < ops2.len() implies {
            let nd = #[trigger] t1.nodes[k];
            &&& nd.id == ops2[k].id
            &&& nd.operation == ops2[k]
            &&& nd.parent == (if k == 0 {
                None::<OperationId>
            } else {
                Some(ops2[k - 1].id)
            })
            &&& nd.children =~= (if k == ops2.len() - 1 {
                Seq::<OperationId>::empty()
            } else {
                seq![ops2[k + 1].id]
            })
            &&& nd.depth == k
            &&& (nd.is_active <==> (k == ops2.len() - 1))
        } by {
            if k < n - 1 {
                assert(t1.nodes[k] == t.nodes[k]);
                assert(ops2[k] == ops[k]);
            } else if k == n - 1 {
                assert(t1.nodes[k].children =~= t.nodes[k].children.push(op.id));
                assert(t.nodes[k].children =~= Seq::<OperationId>::empty());
                assert(t1.nodes[k].children =~= seq![op.id]);
            } else {
                assert(k == ops2.len() - 1);
            }
        }
        assert forall|j: int| 0 <= j < ops2.len() implies (#[trigger] t1.undo[j])
            == ops2[j].id by {
            if j < n {
                assert(t1.undo[j] == t.undo[j]);
                assert(ops2[j] == ops[j]);
            }
        }
        assert(chain_state(t1, ops2, ops2.len() as int, max_ops));
    }
}

/// Recording a fresh chain of operations on an empty history yields the
/// chain shape, fully on the undo path.
pub proof fn lemma_adds_chain(ops: Seq<Operation>, max_ops: nat)
    requires
        ops_well_formed(ops),
        ops.len() <= max_ops,
        ops.len() <= usize::MAX,
    ensures
        apply_adds(empty_tree(max_ops), ops).wf(),
        chain_state(apply_adds(empty_tree(max_ops), ops), ops, ops.len() as int, max_ops),
    decreases ops.len(),
{
    let t0 = empty_tree(max_ops);
    if ops.len() == 0 {
        assert(apply_adds(t0, ops) == t0);
        assert(t0.wf());
        assert(chain_state(t0, ops, 0, max_ops));
    } else {
        let prefix = ops.drop_last();
        let op = ops.last();
        assert(ops_well_formed(prefix)) by {
            assert(forall|k: int| 0 <= k < prefix.len() ==> prefix[k] == ops[k]);
        }
        lemma_adds_chain(prefix, max_ops);
        let tp = apply_adds(t0, prefix);
        assert(prefix.push(op) =~= ops);
        lemma_add_extends_chain(tp, prefix, op, max_ops);
        assert(apply_adds(t0, ops) == spec_add(tp, op));
    }
}

/// One undo moves the chain position down one step (or does nothing at the
/// bottom).
#[verifier::rlimit(100)]
#[verifier::spinoff_prover]
pub proof fn lemma_undo_chain(t: TreeView, ops: Seq<Operation>, m: int, max_ops: nat)
    requires
        t.wf(),
        ops_well_formed(ops),
        chain_state(t, ops, m, max_ops),
    ensures
        spec_undo(t).wf(),
        chain_state(
            spec_undo(t),
            ops,
            if m == 0 {
                0
            } else {
                m - 1
            },
            max_ops,
        ),
{
    crate::history::lemma_undo_wf(t);
    if m == 0 {
        assert(spec_undo(t) == t);
    } else {
        let c = ops[m - 1].id;
        assert(t.nodes[m - 1].id == c);
        crate::history::lemma_idx_at(t.nodes, m - 1);
        assert(crate::history::idx_of(t.nodes, c) == m - 1);
        if m >= 2 {
            let p = ops[m - 2].id;
            assert(t.nodes[m - 2].id == p);
            crate::history::lemma_idx_at(t.nodes, m - 2);
        }
        let t2 = spec_undo(t);
        assert(t2.redo.len() == ops.len() - m + 1);
        assert forall|j: int| 0 <= j < ops.len() - (m - 1) implies (#[trigger] t2.redo[j])
            == ops[ops.len() - 1 - j].id by {
            if j < ops.len() - m {
                assert(t2.redo[j] == t.redo[j]);
            } else {
                assert(t2.redo[j] == c);
            }
        }
    }
}

/// One redo moves the chain position up one step (or does nothing at the
/// top).
#[verifier::rlimit(100)]
#[verifier::spinoff_prover]
pub proof fn lemma_redo_chain(t: TreeView, ops: Seq<Operation>, m: int, max_ops: nat)
    requires
        t.wf(),
        ops_well_formed(ops),
        chain_state(t, ops, m, max_ops),
    ensures
        spec_redo(t).wf(),
        chain_state(
            spec_redo(t),
            ops,
            if m == ops.len() {
                m
            } else {
                m + 1
            },
            max_ops,
        ),
{
    crate::history::lemma_redo_wf(t);
    if m == ops.len() {
        assert(t.redo.len() == 0);
        assert(spec_redo(t) == t);
    } else {
        let c = t.redo.last();
        assert(c == ops[ops.len() - 1 - (t.redo.len() - 1)].id);
        assert(c == ops[m].id);
        assert(t.nodes[m].id == c);
        crate::history::lemma_idx_at(t.nodes, m);
        if m > 0 {
            assert(t.nodes[m - 1].id == ops[m - 1].id);
            crate::history::lemma_idx_at(t.nodes, m - 1);
        }
        let t2 = spec_redo(t);
        assert forall|j: int| 0 <= j < m + 1 implies (#[trigger] t2.undo[j]) == ops[j].id by {
            if j < m {
                assert(t2.undo[j] == t.undo[j]);
            } else {
                assert(t2.undo[j] == c);
            }
        }
    }
}

/// `n` undos in a row from chain position `m`.
pub proof fn lemma_undos_chain(t: TreeView, ops: Seq<Operation>, m: int, n: nat, max_ops: nat)
    requires
        t.wf(),
        ops_well_formed(ops),
        chain_state(t, ops, m, max_ops),
    ensures
        apply_undos(t, n).wf(),
        chain_state(
            apply_undos(t, n),
            ops,
            if m - n >= 0 {
                m - n
            } else {
                0
            },
            max_ops,
        ),
    decreases n,
{
    if n > 0 {
        lemma_undo_chain(t, ops, m, max_ops);
        lemma_undos_chain(
            spec_undo(t),
            ops,
            if m == 0 {
                0
            } else {
                m - 1
            },
            (n - 1) as nat,
            max_ops,
        );
    }
}

/// `n` redos in a row from chain position `m`.
pub proof fn lemma_redos_chain(t: TreeView, ops: Seq<Operation>, m: int, n: nat, max_ops: nat)
    requires
        t.wf(),
        ops_well_formed(ops),
        chain_state(t, ops, m, max_ops),
    ensures
        apply_redos(t, n).wf(),
        chain_state(
            apply_redos(t, n),
            ops,
            if m + n <= ops.len() {
                m + n
            } else {
                ops.len() as int
            },
            max_ops,
        ),
    decreases n,
{
    if n > 0 {
        lemma_redo_chain(t, ops, m, max_ops);
        lemma_redos_chain(
            spec_redo(t),
            ops,
            if m == ops.len() {
                m
            } else {
                m + 1
            },
            (n - 1) as nat,
            max_ops,
        );
    }
}

/// Round trip: recording `N` operations on an empty history and then
/// undoing `N` times leaves no current node and an empty undo path (so
/// `current_operations` returns nothing), and `N` further redos restore
/// exactly the original sequence: the same ids, in the same order, with the
/// last operation current again.
pub proof fn lemma_round_trip(ops: Seq<Operation>, max_ops: nat)
    requires
        ops_well_formed(ops),
        ops.len() <= max_ops,
        ops.len() <= usize::MAX,
    ensures
        ({
            let t1 = apply_adds(empty_tree(max_ops), ops);
            let t2 = apply_undos(t1, ops.len());
            let t3 = apply_redos(t2, ops.len());
            &&& t2.undo.len() == 0
            &&& t2.current is None
            &&& t3.current == t1.current
            &&& t3.undo == t1.undo
            &&& t3.redo.len() == 0
            &&& forall|j: int| 0 <= j < ops.len() ==> (#[trigger] t3.undo[j]) == ops[j].id
        }),
{
    let t1 = apply_adds(empty_tree(max_ops), ops);
    lemma_adds_chain(ops, max_ops);
    lemma_undos_chain(t1, ops, ops.len() as int, ops.len(), max_ops);
    let t2 = apply_undos(t1, ops.len());
    lemma_redos_chain(t2, ops, 0, ops.len(), max_ops);
    let t3 = apply_redos(t2, ops.len());
    assert(t3.undo =~= t1.undo);
}

/// Depth accounting: after recording a linear chain of operations on an
/// empty history, the last node's depth and the recorded current depth both
/// equal the chain length minus one.
pub proof fn lemma_linear_chain_depth(ops: Seq<Operation>, max_ops: nat)
    requires
        ops_well_formed(ops),
        ops.len() > 0,
        ops.len() <= max_ops,
        ops.len() <= usize::MAX,
    ensures
        ({
            let t1 = apply_adds(empty_tree(max_ops), ops);
            &&& has_id(t1.nodes, ops.last().id)
            &&& node_of(t1.nodes, ops.last().id).depth == ops.len() - 1
            &&& t1.stats.current_depth == ops.len() - 1
        }),
{
    lemma_adds_chain(ops, max_ops);
    let t1 = apply_adds(empty_tree(max_ops), ops);
    assert(t1.nodes[ops.len() - 1].id == ops.last().id);
    crate::history::lemma_idx_at(t1.nodes, ops.len() - 1);
}

} // verus!
