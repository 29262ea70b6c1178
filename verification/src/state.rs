//! The state of a replicated tree and the merge of one move into it.
//!
//! A state is a tree and the log of the moves merged so far, newest first. A move that
//! is newer than everything in the log is carried out and logged. A move that arrives
//! late finds its place in the log: the newer moves are undone, the late move is carried
//! out, and the newer moves are carried out again on top of it.

use crate::clock::Clock;
use crate::opmove::OpMove;
use crate::tree::{acyclic, lemma_moved_acyclic, moved, TreeMap, TreeNode};
use std::collections::HashMap;
use vstd::prelude::*;

verus! {

/// A logged move, with the place that its child had just before the move (`None` if the
/// child was not in the tree), which is what undoing the move restores.
#[derive(Clone, Copy, Debug, PartialEq, Eq, Structural, Hash)]
pub struct LogOpMove {
    pub op: OpMove,
    pub oldp: Option<TreeNode>,
}

/// The mathematical state of a replicated tree.
pub struct TreeState {
    /// The moves merged so far, newest first.
    pub log: Seq<LogOpMove>,
    /// The tree as it stands.
    pub tree: TreeMap,
}

/// A copy of a replica's state, taken at one moment, for inspection and for storing.
#[derive(Clone, Debug, PartialEq, Eq)]
pub struct State {
    /// The moves merged so far, newest first.
    pub log_op_list: Vec<LogOpMove>,
    /// Each placed node, with its parent and metadata.
    pub tree: HashMap<u64, TreeNode>,
}

impl View for State {
    type V = TreeState;

    open spec fn view(&self) -> TreeState {
        TreeState { log: self.log_op_list@, tree: self.tree@ }
    }
}

/// The moves of a log, without the places they remember.
pub open spec fn ops_of(log: Seq<LogOpMove>) -> Seq<OpMove> {
    Seq::new(log.len(), |i: int| log[i].op)
}

/// Each move is strictly older than the one before it.
pub open spec fn strictly_descending(ops: Seq<OpMove>) -> bool {
    forall|i: int, j: int|
        0 <= i < j < ops.len() ==> (#[trigger] ops[j]).timestamp.before((#[trigger] ops[i]).timestamp)
}

/// `ops` with `op` at its place by timestamp. A move whose timestamp is already there is
/// left out.
pub open spec fn insert_by_time(ops: Seq<OpMove>, op: OpMove) -> Seq<OpMove>
    decreases ops.len(),
{
    if ops.len() == 0 {
        seq![op]
    } else if op.timestamp == ops[0].timestamp {
        ops
    } else if op.timestamp.before(ops[0].timestamp) {
        seq![ops[0]] + insert_by_time(ops.drop_first(), op)
    } else {
        seq![op] + ops
    }
}

/// The state reached by carrying out `ops`, given newest first, from the oldest to the
/// newest on an empty tree.
pub open spec fn replay(ops: Seq<OpMove>) -> TreeState
    decreases ops.len(),
{
    if ops.len() == 0 {
        TreeState::empty()
    } else {
        replay(ops.drop_first()).do_op(ops[0])
    }
}

impl TreeState {
    /// No node placed, nothing logged.
    pub open spec fn empty() -> TreeState {
        TreeState { log: Seq::empty(), tree: Map::empty() }
    }

    /// Carries out `op` on the tree as it stands and logs it as the newest move. A move
    /// that would make a cycle changes nothing in the tree and is logged all the same.
    pub open spec fn do_op(self, op: OpMove) -> TreeState {
        let oldp = if self.tree.contains_key(op.child) {
            Some(self.tree[op.child])
        } else {
            None
        };
        TreeState { log: seq![LogOpMove { op, oldp }] + self.log, tree: moved(self.tree, op) }
    }

    /// Takes the newest move back: its child returns to the place it had before, or
    /// leaves the tree if it had none.
    pub open spec fn undo_newest(self) -> TreeState
        recommends
            self.log.len() > 0,
    {
        let newest = self.log[0];
        TreeState {
            log: self.log.drop_first(),
            tree: match newest.oldp {
                Some(place) => self.tree.insert(newest.op.child, place),
                None => self.tree.remove(newest.op.child),
            },
        }
    }

    /// Merges one move. On an empty log, and when the move is newer than the newest
    /// logged move, it is carried out and logged. When it has the timestamp of the
    /// newest logged move, it is ignored. When it is older, the newest logged move is
    /// undone, the move is merged into what is left, and the undone move is carried out
    /// again on top of the result.
    pub open spec fn apply_op(self, op: OpMove) -> TreeState
        decreases self.log.len(),
    {
        if self.log.len() == 0 {
            self.do_op(op)
        } else if op.timestamp == self.log[0].op.timestamp {
            self
        } else if op.timestamp.before(self.log[0].op.timestamp) {
            self.undo_newest().apply_op(op).do_op(self.log[0].op)
        } else {
            self.do_op(op)
        }
    }

    /// Merges the moves of `ops` one after another, the first one first.
    pub open spec fn apply_ops(self, ops: Seq<OpMove>) -> TreeState
        decreases ops.len(),
    {
        if ops.len() == 0 {
            self
        } else {
            self.apply_ops(ops.drop_last()).apply_op(ops.last())
        }
    }

    /// Every logged move is strictly older than `time`.
    pub open spec fn older_than(self, time: Clock) -> bool {
        forall|i: int| 0 <= i < self.log.len() ==> (#[trigger] self.log[i]).op.timestamp.before(time)
    }

    /// No logged move has a counter above that of `time`.
    pub open spec fn seen_by(self, time: Clock) -> bool {
        forall|i: int|
            0 <= i < self.log.len() ==> (#[trigger] self.log[i]).op.timestamp.counter
                <= time.counter
    }

    /// The log is in strictly descending order of timestamps, and carrying out its moves
    /// in ascending order on an empty tree gives this very state, log and tree.
    pub open spec fn well_formed(self) -> bool {
        strictly_descending(ops_of(self.log)) && self == replay(ops_of(self.log))
    }
}

/// The log of a replayed state holds the replayed moves, in their order.
pub proof fn lemma_replay_log(ops: Seq<OpMove>)
    ensures
        ops_of(replay(ops).log) == ops,
    decreases ops.len(),
{
    if ops.len() > 0 {
        lemma_replay_log(ops.drop_first());
        let before = replay(ops.drop_first());
        assert(ops_of(before.do_op(ops[0]).log) =~= seq![ops[0]] + ops_of(before.log));
    }
    assert(ops_of(replay(ops).log) =~= ops);
}

/// The tree of a replayed state has no cycle.
pub proof fn lemma_replay_acyclic(ops: Seq<OpMove>)
    ensures
        acyclic(replay(ops).tree),
    decreases ops.len(),
{
    if ops.len() > 0 {
        lemma_replay_acyclic(ops.drop_first());
        lemma_moved_acyclic(replay(ops.drop_first()).tree, ops[0]);
    }
}

/// Replaying one move more: the move is carried out on the replay of the rest.
pub proof fn lemma_replay_push(ops: Seq<OpMove>, op: OpMove)
    ensures
        replay(seq![op] + ops) == replay(ops).do_op(op),
{
    assert((seq![op] + ops).drop_first() =~= ops);
}

/// Undoing a move right after it was carried out gives back the state before it.
pub proof fn lemma_undo_do_op(state: TreeState, op: OpMove)
    ensures
        state.do_op(op).undo_newest() == state,
{
    let undone = state.do_op(op).undo_newest();
    assert(undone.log =~= state.log);
    assert(undone.tree =~= state.tree);
}

/// The tail of a strictly descending sequence is strictly descending.
pub proof fn lemma_descending_tail(ops: Seq<OpMove>)
    requires
        strictly_descending(ops),
        ops.len() > 0,
    ensures
        strictly_descending(ops.drop_first()),
{
    let rest = ops.drop_first();
    assert forall|i: int, j: int| 0 <= i < j < rest.len() implies (#[trigger] rest[j]).timestamp.before(
        (#[trigger] rest[i]).timestamp,
    ) by {
        assert(rest[i] == ops[i + 1] && rest[j] == ops[j + 1]);
    }
}

/// Putting a move at its place keeps a strictly descending sequence strictly descending.
pub proof fn lemma_insert_by_time_descending(ops: Seq<OpMove>, op: OpMove)
    requires
        strictly_descending(ops),
    ensures
        strictly_descending(insert_by_time(ops, op)),
        forall|k: int|
            0 <= k < insert_by_time(ops, op).len() ==> #[trigger] insert_by_time(ops, op)[k] == op
                || ops.contains(insert_by_time(ops, op)[k]),
    decreases ops.len(),
{
    let placed = insert_by_time(ops, op);
    if ops.len() == 0 {
    } else if op.timestamp == ops[0].timestamp {
    } else if op.timestamp.before(ops[0].timestamp) {
        let rest = ops.drop_first();
        let inner = insert_by_time(rest, op);
        lemma_descending_tail(ops);
        lemma_insert_by_time_descending(rest, op);
        assert forall|k: int| 0 <= k < placed.len() implies #[trigger] placed[k] == op || ops.contains(
            placed[k],
        ) by {
            if k > 0 {
                assert(placed[k] == inner[k - 1]);
                if inner[k - 1] != op {
                    let at = choose|at: int| 0 <= at < rest.len() && rest[at] == inner[k - 1];
                    assert(ops[at + 1] == placed[k]);
                }
            } else {
                assert(ops[0] == placed[0]);
            }
        }
        assert forall|i: int, j: int| 0 <= i < j < placed.len() implies (#[trigger] placed[j]).timestamp.before(
            (#[trigger] placed[i]).timestamp,
        ) by {
            if i == 0 {
                assert(placed[j] == inner[j - 1]);
                if inner[j - 1] != op {
                    let at = choose|at: int| 0 <= at < rest.len() && rest[at] == inner[j - 1];
                    assert(ops[at + 1] == placed[j]);
                }
            } else {
                assert(placed[i] == inner[i - 1] && placed[j] == inner[j - 1]);
            }
        }
    } else {
        assert forall|i: int, j: int| 0 <= i < j < placed.len() implies (#[trigger] placed[j]).timestamp.before(
            (#[trigger] placed[i]).timestamp,
        ) by {
            if i == 0 {
                assert(placed[j] == ops[j - 1]);
                if j > 1 {
                    assert(ops[j - 1].timestamp.before(ops[0].timestamp));
                }
            } else {
                assert(placed[i] == ops[i - 1] && placed[j] == ops[j - 1]);
            }
        }
        assert forall|k: int| 0 <= k < placed.len() implies #[trigger] placed[k] == op || ops.contains(
            placed[k],
        ) by {
            if k > 0 {
                assert(placed[k] == ops[k - 1]);
            }
        }
    }
}

/// Merging a move into a well-formed state gives the state in which every move, the
/// new one included, was carried out in the order of the timestamps.
pub proof fn lemma_apply_op_replays(state: TreeState, op: OpMove)
    requires
        state.well_formed(),
    ensures
        state.apply_op(op) == replay(insert_by_time(ops_of(state.log), op)),
        ops_of(state.apply_op(op).log) == insert_by_time(ops_of(state.log), op),
        state.apply_op(op).well_formed(),
    decreases state.log.len(),
{
    let ops = ops_of(state.log);
    lemma_insert_by_time_descending(ops, op);
    lemma_replay_log(insert_by_time(ops, op));
    if state.log.len() == 0 {
        assert(ops =~= Seq::empty());
        lemma_replay_push(ops, op);
        assert(seq![op] + ops =~= seq![op]);
    } else if op.timestamp == state.log[0].op.timestamp {
    } else if op.timestamp.before(state.log[0].op.timestamp) {
        let rest = ops.drop_first();
        let before = replay(rest);
        lemma_undo_do_op(before, ops[0]);
        assert(state.undo_newest() == before);
        lemma_descending_tail(ops);
        lemma_replay_log(rest);
        lemma_apply_op_replays(before, op);
        lemma_replay_push(insert_by_time(rest, op), ops[0]);
    } else {
        lemma_replay_push(ops, op);
    }
}

/// A clock that has seen every logged move, and then sees the move that is merged,
/// has seen every move of the log after the merge.
pub proof fn lemma_apply_op_seen(state: TreeState, op: OpMove, time: Clock)
    requires
        state.well_formed(),
        state.seen_by(time),
    ensures
        state.apply_op(op).seen_by(time.merged(op.timestamp)),
{
    let after = state.apply_op(op);
    let logged = ops_of(state.log);
    lemma_apply_op_replays(state, op);
    lemma_insert_by_time_descending(logged, op);
    assert forall|i: int| 0 <= i < after.log.len() implies (#[trigger] after.log[i]).op.timestamp.counter
        <= time.merged(op.timestamp).counter by {
        let placed = insert_by_time(logged, op);
        assert(placed[i] == after.log[i].op);
        if placed[i] != op {
            let at = choose|at: int| 0 <= at < logged.len() && logged[at] == placed[i];
            assert(state.log[at].op == placed[i]);
        }
    }
}

} // verus!
