//! Replicas that have merged the same moves hold the same state.
//!
//! The state after a merge is the replay, in the order of the timestamps, of every move
//! merged so far. A replay does not remember in which order the moves arrived, so two
//! replicas agree as soon as they have seen the same moves.

use crate::opmove::OpMove;
use crate::state::{
    insert_by_time, lemma_apply_op_replays, lemma_descending_tail, lemma_replay_acyclic, ops_of,
    strictly_descending, TreeState,
};
use crate::tree::{acyclic, makes_cycle};
use vstd::prelude::*;

verus! {

/// Moves of `ops` with the same timestamp are the same move.
pub open spec fn timestamps_identify(ops: Seq<OpMove>) -> bool {
    forall|a: OpMove, b: OpMove|
        ops.contains(a) && ops.contains(b) && a.timestamp == b.timestamp ==> a == b
}

/// After a move was put at its place, the sequence holds the move and what it held
/// before, provided that no other move in it has the timestamp of the new one.
pub proof fn lemma_insert_by_time_contains(ops: Seq<OpMove>, op: OpMove)
    requires
        forall|e: OpMove| ops.contains(e) && e.timestamp == op.timestamp ==> e == op,
    ensures
        forall|x: OpMove| #[trigger]
            insert_by_time(ops, op).contains(x) <==> x == op || ops.contains(x),
    decreases ops.len(),
{
    let placed = insert_by_time(ops, op);
    if ops.len() == 0 {
        assert(placed[0] == op);
    } else if op.timestamp == ops[0].timestamp {
        assert(ops.contains(ops[0]));
    } else if op.timestamp.before(ops[0].timestamp) {
        let rest = ops.drop_first();
        let inner = insert_by_time(rest, op);
        assert forall|e: OpMove| rest.contains(e) && e.timestamp == op.timestamp implies e == op by {
            let at = choose|at: int| 0 <= at < rest.len() && rest[at] == e;
            assert(ops[at + 1] == e);
            assert(ops.contains(e));
        }
        lemma_insert_by_time_contains(rest, op);
        assert forall|x: OpMove| placed.contains(x) <==> x == op || ops.contains(x) by {
            if placed.contains(x) {
                let at = choose|at: int| 0 <= at < placed.len() && placed[at] == x;
                if at == 0 {
                    assert(ops[0] == x);
                } else {
                    assert(inner[at - 1] == x);
                    assert(inner.contains(x));
                    if x != op {
                        assert(rest.contains(x));
                        let back = choose|back: int| 0 <= back < rest.len() && rest[back] == x;
                        assert(ops[back + 1] == x);
                    }
                }
            }
            if x == op || ops.contains(x) {
                if x != op && ops[0] == x {
                    assert(placed[0] == x);
                } else {
                    if x != op {
                        let at = choose|at: int| 0 <= at < ops.len() && ops[at] == x;
                        assert(rest[at - 1] == x);
                        assert(rest.contains(x));
                    }
                    assert(inner.contains(x));
                    let at = choose|at: int| 0 <= at < inner.len() && inner[at] == x;
                    assert(placed[at + 1] == x);
                }
            }
        }
    } else {
        assert forall|x: OpMove| placed.contains(x) <==> x == op || ops.contains(x) by {
            if placed.contains(x) {
                let at = choose|at: int| 0 <= at < placed.len() && placed[at] == x;
                if at > 0 {
                    assert(ops[at - 1] == x);
                }
            }
            if x == op {
                assert(placed[0] == x);
            } else if ops.contains(x) {
                let at = choose|at: int| 0 <= at < ops.len() && ops[at] == x;
                assert(placed[at + 1] == x);
            }
        }
    }
}

/// Two strictly descending sequences that hold the same moves are the same sequence.
proof fn lemma_descending_unique(a: Seq<OpMove>, b: Seq<OpMove>)
    requires
        strictly_descending(a),
        strictly_descending(b),
        forall|x: OpMove| a.contains(x) <==> b.contains(x),
    ensures
        a == b,
    decreases a.len(),
{
    if a.len() == 0 {
        if b.len() > 0 {
            assert(b.contains(b[0]));
        }
        assert(a =~= b);
    } else {
        assert(a.contains(a[0]));
        let j = choose|j: int| 0 <= j < b.len() && b[j] == a[0];
        assert(b.contains(b[0]));
        let i = choose|i: int| 0 <= i < a.len() && a[i] == b[0];
        assert(a[0] == b[0]) by {
            if j > 0 {
                assert(b[j].timestamp.before(b[0].timestamp));
                if i > 0 {
                    assert(a[i].timestamp.before(a[0].timestamp));
                }
            }
        }
        let a_rest = a.drop_first();
        let b_rest = b.drop_first();
        lemma_descending_tail(a);
        lemma_descending_tail(b);
        assert forall|x: OpMove| a_rest.contains(x) <==> b_rest.contains(x) by {
            if a_rest.contains(x) {
                let m = choose|m: int| 0 <= m < a_rest.len() && a_rest[m] == x;
                assert(a[m + 1] == x);
                assert(a[m + 1].timestamp.before(a[0].timestamp));
                assert(a.contains(x));
                let k = choose|k: int| 0 <= k < b.len() && b[k] == x;
                assert(b_rest[k - 1] == x);
            }
            if b_rest.contains(x) {
                let m = choose|m: int| 0 <= m < b_rest.len() && b_rest[m] == x;
                assert(b[m + 1] == x);
                assert(b[m + 1].timestamp.before(b[0].timestamp));
                assert(b.contains(x));
                let k = choose|k: int| 0 <= k < a.len() && a[k] == x;
                assert(a_rest[k - 1] == x);
            }
        }
        lemma_descending_unique(a_rest, b_rest);
        assert(a =~= seq![a[0]] + a_rest);
        assert(b =~= seq![b[0]] + b_rest);
    }
}

/// Two moves with different timestamps find their places in a strictly descending
/// sequence in either order, with the same result.
proof fn lemma_insert_by_time_commutes(ops: Seq<OpMove>, a: OpMove, b: OpMove)
    requires
        strictly_descending(ops),
        a.timestamp != b.timestamp,
    ensures
        insert_by_time(insert_by_time(ops, a), b) == insert_by_time(insert_by_time(ops, b), a),
    decreases ops.len(),
{
    let with_a = insert_by_time(ops, a);
    let with_b = insert_by_time(ops, b);
    if ops.len() == 0 {
        assert(seq![a].drop_first() =~= Seq::<OpMove>::empty());
        assert(seq![b].drop_first() =~= Seq::<OpMove>::empty());
        assert(insert_by_time(Seq::<OpMove>::empty(), a) == seq![a]);
        assert(insert_by_time(Seq::<OpMove>::empty(), b) == seq![b]);
        assert(with_a == seq![a] && with_b == seq![b]);
        assert(with_a[0] == a && with_b[0] == b);
        if b.timestamp.before(a.timestamp) {
            assert(insert_by_time(with_a, b) == seq![a] + seq![b]);
            assert(insert_by_time(with_b, a) == seq![a] + seq![b]);
        } else {
            assert(insert_by_time(with_a, b) == seq![b] + seq![a]);
            assert(insert_by_time(with_b, a) == seq![b] + seq![a]);
        }
    } else {
        let newest = ops[0];
        let rest = ops.drop_first();
        lemma_descending_tail(ops);
        lemma_insert_by_time_commutes(rest, a, b);
        let rest_a = insert_by_time(rest, a);
        let rest_b = insert_by_time(rest, b);
        assert((seq![newest] + rest_a).drop_first() =~= rest_a);
        assert((seq![newest] + rest_b).drop_first() =~= rest_b);
        assert((seq![a] + ops).drop_first() =~= ops);
        assert((seq![b] + ops).drop_first() =~= ops);
        assert((seq![newest] + rest_a)[0] == newest);
        assert((seq![newest] + rest_b)[0] == newest);
        assert((seq![a] + ops)[0] == a);
        assert((seq![b] + ops)[0] == b);
        if a.timestamp == newest.timestamp {
            assert(with_a == ops);
            if b.timestamp.before(newest.timestamp) {
                assert(with_b == seq![newest] + rest_b);
                assert(insert_by_time(with_b, a) == with_b);
            } else {
                assert(with_b == seq![b] + ops);
                assert(insert_by_time(with_b, a) == seq![b] + insert_by_time(ops, a));
            }
        } else if b.timestamp == newest.timestamp {
            assert(with_b == ops);
            if a.timestamp.before(newest.timestamp) {
                assert(with_a == seq![newest] + rest_a);
                assert(insert_by_time(with_a, b) == with_a);
            } else {
                assert(with_a == seq![a] + ops);
                assert(insert_by_time(with_a, b) == seq![a] + insert_by_time(ops, b));
            }
        } else if a.timestamp.before(newest.timestamp) {
            assert(with_a == seq![newest] + rest_a);
            if b.timestamp.before(newest.timestamp) {
                assert(with_b == seq![newest] + rest_b);
                assert(insert_by_time(with_a, b) == seq![newest] + insert_by_time(rest_a, b));
                assert(insert_by_time(with_b, a) == seq![newest] + insert_by_time(rest_b, a));
            } else {
                assert(with_b == seq![b] + ops);
                assert(insert_by_time(with_a, b) == seq![b] + with_a);
                assert(insert_by_time(with_b, a) == seq![b] + insert_by_time(ops, a));
            }
        } else {
            assert(with_a == seq![a] + ops);
            if b.timestamp.before(newest.timestamp) {
                assert(with_b == seq![newest] + rest_b);
                assert(insert_by_time(with_b, a) == seq![a] + with_b);
                assert(insert_by_time(with_a, b) == seq![a] + insert_by_time(ops, b));
            } else {
                assert(with_b == seq![b] + ops);
                if a.timestamp.before(b.timestamp) {
                    assert(insert_by_time(with_a, b) == seq![b] + with_a);
                    assert(insert_by_time(with_b, a) == seq![b] + insert_by_time(ops, a));
                } else {
                    assert(insert_by_time(with_b, a) == seq![a] + with_b);
                    assert(insert_by_time(with_a, b) == seq![a] + insert_by_time(ops, b));
                }
            }
        }
    }
}

/// A move whose timestamp is in a strictly descending sequence finds its place taken.
proof fn lemma_insert_by_time_known(ops: Seq<OpMove>, op: OpMove, at: int)
    requires
        strictly_descending(ops),
        0 <= at < ops.len(),
        ops[at].timestamp == op.timestamp,
    ensures
        insert_by_time(ops, op) == ops,
    decreases ops.len(),
{
    if at > 0 {
        let rest = ops.drop_first();
        lemma_descending_tail(ops);
        assert(ops[at].timestamp.before(ops[0].timestamp));
        assert(rest[at - 1] == ops[at]);
        lemma_insert_by_time_known(rest, op, at - 1);
        assert(seq![ops[0]] + rest =~= ops);
    }
}

/// After a move was put at its place, its timestamp is in the sequence.
proof fn lemma_insert_by_time_has_time(ops: Seq<OpMove>, op: OpMove) -> (at: int)
    ensures
        0 <= at < insert_by_time(ops, op).len(),
        insert_by_time(ops, op)[at].timestamp == op.timestamp,
    decreases ops.len(),
{
    if ops.len() == 0 {
        0
    } else if op.timestamp == ops[0].timestamp {
        0
    } else if op.timestamp.before(ops[0].timestamp) {
        let inner = lemma_insert_by_time_has_time(ops.drop_first(), op);
        inner + 1
    } else {
        0
    }
}

/// The state of a fresh replica is well formed.
pub proof fn lemma_empty_well_formed()
    ensures
        TreeState::empty().well_formed(),
{
    assert(ops_of(TreeState::empty().log) =~= Seq::<OpMove>::empty());
}

/// The tree of a well-formed state has no cycle: no node is its own ancestor.
pub proof fn lemma_well_formed_acyclic(state: TreeState)
    requires
        state.well_formed(),
    ensures
        acyclic(state.tree),
{
    lemma_replay_acyclic(ops_of(state.log));
}

/// Merging keeps a state well formed, so the tree never gets a cycle, and the merged
/// move is in the log afterwards unless a move with its timestamp was there before.
pub proof fn lemma_apply_op_well_formed(state: TreeState, op: OpMove)
    requires
        state.well_formed(),
    ensures
        state.apply_op(op).well_formed(),
        acyclic(state.apply_op(op).tree),
        (forall|e: OpMove| ops_of(state.log).contains(e) ==> e.timestamp != op.timestamp)
            ==> ops_of(state.apply_op(op).log).contains(op) && state.apply_op(op).log.len()
            == state.log.len() + 1,
{
    lemma_apply_op_replays(state, op);
    lemma_well_formed_acyclic(state.apply_op(op));
    let logged = ops_of(state.log);
    if forall|e: OpMove| logged.contains(e) ==> e.timestamp != op.timestamp {
        lemma_insert_by_time_contains(logged, op);
        lemma_insert_by_time_grows(logged, op);
        assert(insert_by_time(logged, op).contains(op));
        assert(ops_of(state.apply_op(op).log).len() == state.apply_op(op).log.len());
    }
}

/// A move with a timestamp that the sequence does not have makes it one longer.
proof fn lemma_insert_by_time_grows(ops: Seq<OpMove>, op: OpMove)
    requires
        forall|e: OpMove| ops.contains(e) ==> e.timestamp != op.timestamp,
    ensures
        insert_by_time(ops, op).len() == ops.len() + 1,
    decreases ops.len(),
{
    if ops.len() > 0 {
        assert(ops.contains(ops[0]));
        let rest = ops.drop_first();
        assert forall|e: OpMove| rest.contains(e) implies e.timestamp != op.timestamp by {
            let at = choose|at: int| 0 <= at < rest.len() && rest[at] == e;
            assert(ops[at + 1] == e);
            assert(ops.contains(e));
        }
        lemma_insert_by_time_grows(rest, op);
    }
}

/// A move that is newer than everything in the log is carried out on the tree as it
/// stands and logged as the newest move: nothing is undone.
pub proof fn lemma_newer_move_is_done(state: TreeState, op: OpMove)
    requires
        state.older_than(op.timestamp),
    ensures
        state.apply_op(op) == state.do_op(op),
{
}

/// A move that is newer than everything in the log and would make a cycle leaves the
/// tree as it is, and is logged as the newest move all the same.
pub proof fn lemma_cycle_suppressed_and_logged(state: TreeState, op: OpMove)
    requires
        state.older_than(op.timestamp),
        makes_cycle(state.tree, op),
    ensures
        state.apply_op(op).tree == state.tree,
        state.apply_op(op).log.len() == state.log.len() + 1,
        state.apply_op(op).log[0].op == op,
        state.apply_op(op).log.drop_first() == state.log,
{
    assert(state.apply_op(op).log.drop_first() =~= state.log);
}

/// A move whose timestamp is already in the log changes nothing, wherever in the log
/// that timestamp stands and whatever else the move says.
pub proof fn lemma_known_timestamp_is_ignored(state: TreeState, op: OpMove, at: int)
    requires
        state.well_formed(),
        0 <= at < state.log.len(),
        state.log[at].op.timestamp == op.timestamp,
    ensures
        state.apply_op(op) == state,
{
    lemma_apply_op_replays(state, op);
    lemma_insert_by_time_known(ops_of(state.log), op, at);
}

/// Merging a move a second time changes nothing.
pub proof fn lemma_apply_op_idempotent(state: TreeState, op: OpMove)
    requires
        state.well_formed(),
    ensures
        state.apply_op(op).apply_op(op) == state.apply_op(op),
{
    lemma_apply_op_replays(state, op);
    let at = lemma_insert_by_time_has_time(ops_of(state.log), op);
    lemma_known_timestamp_is_ignored(state.apply_op(op), op, at);
}

/// Merging a whole sequence of moves keeps a state well formed.
pub proof fn lemma_apply_ops_well_formed(state: TreeState, ops: Seq<OpMove>)
    requires
        state.well_formed(),
    ensures
        state.apply_ops(ops).well_formed(),
        acyclic(state.apply_ops(ops).tree),
    decreases ops.len(),
{
    if ops.len() > 0 {
        lemma_apply_ops_well_formed(state, ops.drop_last());
        lemma_apply_op_well_formed(state.apply_ops(ops.drop_last()), ops.last());
    } else {
        lemma_well_formed_acyclic(state);
    }
}

/// Whatever moves a fresh replica merges, in whatever order, no node of its tree is its
/// own ancestor.
pub proof fn lemma_never_a_cycle(ops: Seq<OpMove>)
    ensures
        TreeState::empty().apply_ops(ops).well_formed(),
        acyclic(TreeState::empty().apply_ops(ops).tree),
{
    lemma_empty_well_formed();
    lemma_apply_ops_well_formed(TreeState::empty(), ops);
}

/// Merging one sequence of moves and then another is merging the two in a row.
pub proof fn lemma_apply_ops_concat(state: TreeState, first: Seq<OpMove>, second: Seq<OpMove>)
    ensures
        state.apply_ops(first).apply_ops(second) == state.apply_ops(first + second),
    decreases second.len(),
{
    if second.len() == 0 {
        assert(first + second =~= first);
    } else {
        lemma_apply_ops_concat(state, first, second.drop_last());
        assert((first + second).drop_last() =~= first + second.drop_last());
    }
}

/// On a fresh state, the log after merging `ops` holds exactly the moves of `ops`.
pub proof fn lemma_fresh_log_holds_ops(ops: Seq<OpMove>)
    requires
        timestamps_identify(ops),
    ensures
        TreeState::empty().apply_ops(ops).well_formed(),
        forall|x: OpMove|
            ops_of(TreeState::empty().apply_ops(ops).log).contains(x) <==> ops.contains(x),
    decreases ops.len(),
{
    let fresh = TreeState::empty();
    assert(ops_of(fresh.log) =~= Seq::<OpMove>::empty());
    if ops.len() > 0 {
        let earlier = ops.drop_last();
        assert forall|x: OpMove| earlier.contains(x) implies ops.contains(x) by {
            let at = choose|at: int| 0 <= at < earlier.len() && earlier[at] == x;
            assert(ops[at] == x);
        }
        lemma_fresh_log_holds_ops(earlier);
        let before = fresh.apply_ops(earlier);
        let logged = ops_of(before.log);
        lemma_apply_op_replays(before, ops.last());
        assert(ops.contains(ops.last())) by {
            assert(ops[ops.len() - 1] == ops.last());
        }
        assert forall|e: OpMove|
            logged.contains(e) && e.timestamp == ops.last().timestamp implies e == ops.last() by {
            assert(earlier.contains(e));
            assert(ops.contains(e));
        }
        lemma_insert_by_time_contains(logged, ops.last());
        let after = ops_of(fresh.apply_ops(ops).log);
        assert(after == insert_by_time(logged, ops.last()));
        assert forall|x: OpMove| after.contains(x) <==> ops.contains(x) by {
            if after.contains(x) {
                if x != ops.last() {
                    assert(logged.contains(x));
                    assert(earlier.contains(x));
                }
            }
            if ops.contains(x) {
                if x != ops.last() {
                    let at = choose|at: int| 0 <= at < ops.len() && ops[at] == x;
                    assert(earlier[at] == x);
                    assert(earlier.contains(x));
                    assert(logged.contains(x));
                }
                if x == ops.last() {
                    assert(after.contains(ops.last()));
                }
                assert(after.contains(x));
            }
        }
    } else {
        assert(fresh.apply_ops(ops).well_formed());
    }
}

/// Convergence. Two fresh replicas that are handed the same moves, in whatever order
/// and however often each, end in the same state, log and tree, as long as no two
/// different moves carry the same timestamp.
pub proof fn lemma_convergence(xs: Seq<OpMove>, ys: Seq<OpMove>)
    requires
        forall|op: OpMove| xs.contains(op) <==> ys.contains(op),
        timestamps_identify(xs),
    ensures
        TreeState::empty().apply_ops(xs) == TreeState::empty().apply_ops(ys),
{
    assert(timestamps_identify(ys)) by {
        assert forall|a: OpMove, b: OpMove|
            ys.contains(a) && ys.contains(b) && a.timestamp == b.timestamp implies a == b by {
            assert(xs.contains(a) && xs.contains(b));
        }
    }
    lemma_fresh_log_holds_ops(xs);
    lemma_fresh_log_holds_ops(ys);
    let left = ops_of(TreeState::empty().apply_ops(xs).log);
    let right = ops_of(TreeState::empty().apply_ops(ys).log);
    assert forall|x: OpMove| left.contains(x) <==> right.contains(x) by {
        assert(left.contains(x) <==> xs.contains(x));
        assert(right.contains(x) <==> ys.contains(x));
    }
    lemma_descending_unique(left, right);
}

/// Two moves with different timestamps merge into a well-formed state in either order,
/// with the same result. In particular a move that arrives after a newer one ends where
/// it would have been, had it arrived first.
pub proof fn lemma_apply_op_commutes(state: TreeState, first: OpMove, second: OpMove)
    requires
        state.well_formed(),
        first.timestamp != second.timestamp,
    ensures
        state.apply_op(first).apply_op(second) == state.apply_op(second).apply_op(first),
{
    lemma_apply_op_replays(state, first);
    lemma_apply_op_replays(state, second);
    lemma_apply_op_replays(state.apply_op(first), second);
    lemma_apply_op_replays(state.apply_op(second), first);
    lemma_insert_by_time_commutes(ops_of(state.log), first, second);
}

} // verus!
