//! The replica that does the work: `crdt_tree::TreeReplica`, with identifiers, metadata
//! and actors all `u64`.
//!
//! The contracts of the functions in `impl TreeReplica` are not proved. Each of them
//! makes one call into `crdt_tree`, and its contract says what that crate's source does
//! with tree and log. The rest of the library is proved from these contracts.

use crate::clock::Clock;
use crate::opmove::OpMove;
use crate::state::{LogOpMove, TreeState};
use crate::tree::TreeNode;
use std::collections::HashMap;
use vstd::prelude::*;

verus! {

/// A `crdt_tree::TreeReplica<u64, u64, u64>`: a tree and the log of merged moves. Its
/// contents are known to the proofs only by the two functions below. What else the
/// replica keeps (for each parent the set of its children, a clock of its own, which
/// moves only when a move is merged, and for each actor the latest timestamp seen) is
/// read by nothing here.
#[verifier::external_body]
#[derive(Debug, PartialEq, Eq)]
pub struct TreeReplica {
    inner: crdt_tree::TreeReplica<u64, u64, u64>,
}

/// The tree of the replica: for each placed node, its parent and metadata.
pub uninterp spec fn replica_tree(replica: TreeReplica) -> Map<u64, TreeNode>;

/// The log of the replica, newest move first.
pub uninterp spec fn replica_log(replica: TreeReplica) -> Seq<LogOpMove>;

impl TreeReplica {
    /// Tree and log together.
    pub open spec fn state(self) -> TreeState {
        TreeState { log: replica_log(self), tree: replica_tree(self) }
    }

    /// `TreeReplica::new`: an empty tree and an empty log.
    #[verifier::external_body]
    pub(crate) fn new(actor: u64) -> (replica: TreeReplica)
        ensures
            replica.state() == TreeState::empty(),
    {
        TreeReplica { inner: crdt_tree::TreeReplica::new(actor) }
    }

    /// `TreeReplica::apply_op`: `State::apply_op` merges the move into tree and log, which
    /// `TreeState::apply_op` retells branch by branch: on an empty log, or when the move
    /// is newer than the newest logged one, `State::do_op`; on the same timestamp as the
    /// newest logged one, nothing; on an older one, `State::undo_op` of the newest logged
    /// move, the merge into what is left, and `State::redo_op`. The call is taken to
    /// return without a panic: `Tree::is_ancestor` walks up from the move's parent until
    /// it runs out of parents, which it does in a well-formed state, where no tree that
    /// the merge passes through has a cycle. The merge calls itself once for each logged
    /// move that is newer than the one merged; the stack is taken to be deep enough.
    #[verifier::external_body]
    pub(crate) fn apply_op(&mut self, op: OpMove)
        requires
            old(self).state().well_formed(),
        ensures
            final(self).state() == old(self).state().apply_op(op),
        no_unwind
    {
        let timestamp = crdt_tree::Clock::new(op.timestamp.actor, Some(op.timestamp.counter));
        self.inner.apply_op(crdt_tree::OpMove::new(timestamp, op.parent, op.metadata, op.child));
    }

    /// `State::log` of `TreeReplica::state`: the log, newest move first, each entry with
    /// the place its child had before.
    #[verifier::external_body]
    pub(crate) fn log(&self) -> (log: Vec<LogOpMove>)
        ensures
            log@ == replica_log(*self),
    {
        self.inner.state().log().iter().map(|entry| LogOpMove {
            op: OpMove {
                timestamp: Clock { counter: entry.timestamp().counter(), actor: *entry.timestamp().actor_id() },
                parent: *entry.parent_id(),
                metadata: *entry.metadata(),
                child: *entry.child_id(),
            },
            oldp: entry.oldp().as_ref().map(|place| TreeNode { parent: *place.parent_id(), metadata: *place.metadata() }),
        }).collect()
    }

    /// `TreeReplica::tree`, handed out node by node: each placed node with its parent
    /// and metadata.
    #[verifier::external_body]
    pub(crate) fn tree(&self) -> (tree: HashMap<u64, TreeNode>)
        ensures
            tree@ == replica_tree(*self),
    {
        self.inner.tree().clone().into_iter().map(|(child, place)| {
            (child, TreeNode { parent: *place.parent_id(), metadata: *place.metadata() })
        }).collect()
    }
}

impl Clone for TreeReplica {
    /// `Clone::clone` of `crdt_tree::TreeReplica`, which that crate derives field by
    /// field: the copy holds the same tree and the same log.
    #[verifier::external_body]
    fn clone(&self) -> (copy: TreeReplica)
        ensures
            copy.state() == self.state(),
    {
        TreeReplica { inner: self.inner.clone() }
    }
}

} // verus!
