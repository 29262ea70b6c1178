//! The replicated tree as a broadcast layer sees it: made for an actor, asked whether a
//! transaction really comes from the actor that claims it, and told to merge it.

use crate::clock::Clock;
use crate::convergence::{lemma_empty_well_formed, lemma_well_formed_acyclic};
use crate::opmove::{minted, strictly_ascending, OpMove, OpMoveTx};
use crate::replica::TreeReplica;
use crate::state::{lemma_apply_op_replays, lemma_apply_op_seen, State, TreeState};
use crate::tree::acyclic;
use vstd::prelude::*;

verus! {

/// Why a transaction is turned down.
#[derive(Debug, PartialEq, Eq, Structural)]
pub enum ValidationError {
    /// A move of the transaction carries the timestamp of another actor than the one the
    /// transaction came from.
    SourceDoesNotMatchOp,
}

impl ValidationError {
    /// What went wrong, in words.
    pub fn message(&self) -> (text: String)
        ensures
            text@ == "The source actor does not match the actor associated with the operation"@,
    {
        match self {
            ValidationError::SourceDoesNotMatchOp => String::from_str(
                "The source actor does not match the actor associated with the operation",
            ),
        }
    }
}

/// Every move of `op_tx` is stamped by `source`.
pub open spec fn all_from(source: u64, op_tx: Seq<OpMove>) -> bool {
    forall|i: int| 0 <= i < op_tx.len() ==> (#[trigger] op_tx[i]).timestamp.actor == source
}

/// `time` after it has seen the timestamps of `ops`.
pub open spec fn merged_all(time: Clock, ops: Seq<OpMove>) -> Clock
    decreases ops.len(),
{
    if ops.len() == 0 {
        time
    } else {
        merged_all(time, ops.drop_last()).merged(ops.last().timestamp)
    }
}

/// A clock never runs backwards and never changes hands: after it has seen `ops` it
/// belongs to the same actor, and its counter is no lower than it was, nor lower than
/// the counter of any move it has seen.
pub proof fn lemma_merged_all_bounds(time: Clock, ops: Seq<OpMove>)
    ensures
        merged_all(time, ops).actor == time.actor,
        merged_all(time, ops).counter >= time.counter,
        forall|i: int|
            0 <= i < ops.len() ==> (#[trigger] ops[i]).timestamp.counter <= merged_all(
                time,
                ops,
            ).counter,
    decreases ops.len(),
{
    if ops.len() > 0 {
        lemma_merged_all_bounds(time, ops.drop_last());
        assert forall|i: int| 0 <= i < ops.len() implies (#[trigger] ops[i]).timestamp.counter
            <= merged_all(time, ops).counter by {
            if i < ops.len() - 1 {
                assert(ops.drop_last()[i] == ops[i]);
            }
        }
    }
}

/// The timestamp of a mint is newer than that of every earlier mint of the same replica,
/// until the counter reaches its maximum. `earlier` is the timestamp of the earlier
/// mint, which is where the clock stood right after it, and `later` is where the clock
/// stands at the later mint: the same actor's, and no lower, since neither minting nor
/// merging ever lowers it.
pub proof fn lemma_later_mint_is_newer(earlier: Clock, later: Clock)
    requires
        earlier.actor == later.actor,
        earlier.counter <= later.counter,
        later.counter < u64::MAX,
    ensures
        earlier.before(later.ticked(1)),
{
}

/// One actor's replica of the tree: the tree and its log, and the clock from which the
/// actor stamps the moves it mints.
#[derive(Debug, PartialEq, Eq)]
pub struct BRBTree {
    actor: u64,
    counter: u64,
    treereplica: TreeReplica,
}

impl BRBTree {
    /// The replica underneath.
    pub closed spec fn replica(&self) -> TreeReplica {
        self.treereplica
    }

    /// The actor this replica was made for.
    pub closed spec fn actor_id(&self) -> u64 {
        self.actor
    }

    /// The highest counter this replica has minted or merged.
    pub closed spec fn counter(&self) -> u64 {
        self.counter
    }

    /// Tree and log.
    pub open spec fn state(&self) -> TreeState {
        self.replica().state()
    }

    /// The clock: the timestamp of the latest mint, or a higher counter that a merged
    /// move has brought. The next mint is stamped with the timestamp after it.
    pub open spec fn time(&self) -> Clock {
        Clock { counter: self.counter(), actor: self.actor_id() }
    }

    /// The clock has seen every logged move, and the state is what its log replays to.
    #[verifier::type_invariant]
    pub closed spec fn inv(&self) -> bool {
        self.state().well_formed() && self.state().seen_by(self.time())
    }

    /// A fresh replica for `actor`: nothing in the tree, nothing in the log, the clock
    /// at zero.
    pub fn new(actor: u64) -> (tree: Self)
        ensures
            tree.actor_id() == actor,
            tree.time() == (Clock { counter: 0, actor }),
            tree.state() == TreeState::empty(),
            tree.state().well_formed(),
            tree.state().seen_by(tree.time()),
    {
        proof {
            lemma_empty_well_formed();
        }
        BRBTree { actor, counter: 0, treereplica: TreeReplica::new(actor) }
    }

    /// Mints one move and advances the clock to its timestamp, the one after the
    /// clock's. Until the counter reaches its maximum, where it stops, the move is
    /// newer than every move minted or merged before. Tree and log stay as they are:
    /// the move takes effect when it is applied.
    pub fn opmove(&mut self, parent: u64, meta: u64, child: u64) -> (op: OpMove)
        ensures
            op == (OpMove {
                timestamp: old(self).time().ticked(1),
                parent,
                metadata: meta,
                child,
            }),
            final(self).time() == op.timestamp,
            final(self).actor_id() == old(self).actor_id(),
            final(self).replica() == old(self).replica(),
            old(self).time().counter < u64::MAX ==> old(self).time().before(op.timestamp),
            old(self).time().counter < u64::MAX ==> final(self).state().older_than(op.timestamp),
    {
        proof {
            use_type_invariant(&*self);
        }
        if self.counter < u64::MAX {
            self.counter = self.counter + 1;
        }
        let timestamp = Clock { counter: self.counter, actor: self.actor };
        OpMove { timestamp, parent, metadata: meta, child }
    }

    /// Mints a transaction of one move, as `opmove` mints it.
    pub fn opmovetx(&mut self, parent: u64, meta: u64, child: u64) -> (op_tx: OpMoveTx)
        ensures
            op_tx@ == seq![
                OpMove {
                    timestamp: old(self).time().ticked(1),
                    parent,
                    metadata: meta,
                    child,
                },
            ],
            all_from(final(self).actor_id(), op_tx@),
            final(self).time() == old(self).time().ticked(1),
            final(self).actor_id() == old(self).actor_id(),
            final(self).replica() == old(self).replica(),
            old(self).time().counter < u64::MAX ==> old(self).time().before(op_tx@[0].timestamp),
            old(self).time().counter < u64::MAX ==> final(self).state().older_than(
                op_tx@[0].timestamp,
            ),
    {
        let op = self.opmove(parent, meta, child);
        let mut op_tx: Vec<OpMove> = Vec::new();
        op_tx.push(op);
        assert(op_tx@ =~= seq![op]);
        op_tx
    }

    /// Mints a transaction of one move for each triple of parent, metadata and child,
    /// in the order given, each with the timestamp after that of the one before, and
    /// advances the clock to the timestamp of the last. As long as the counter does not
    /// reach its maximum, each move is newer than the one before it and than every move
    /// minted or merged before.
    pub fn opmovetx_multi(&mut self, ops: Vec<(u64, u64, u64)>) -> (op_tx: OpMoveTx)
        ensures
            op_tx@ == minted(old(self).time(), ops@),
            all_from(final(self).actor_id(), op_tx@),
            final(self).time() == old(self).time().ticked(ops@.len()),
            final(self).actor_id() == old(self).actor_id(),
            final(self).replica() == old(self).replica(),
            old(self).time().counter + ops@.len() <= u64::MAX ==> strictly_ascending(op_tx@),
            old(self).time().counter + ops@.len() <= u64::MAX ==> forall|i: int|
                0 <= i < op_tx@.len() ==> old(self).time().before(op_tx@[i].timestamp)
                    && final(self).state().older_than((#[trigger] op_tx@[i]).timestamp),
    {
        proof {
            use_type_invariant(&*self);
        }
        let mut op_tx: Vec<OpMove> = Vec::new();
        let mut i: usize = 0;
        while i < ops.len()
            invariant
                0 <= i <= ops.len(),
                self.actor == old(self).actor,
                self.treereplica == old(self).treereplica,
                self.time() == old(self).time().ticked(i as nat),
                op_tx@ == minted(old(self).time(), ops@.take(i as int)),
            decreases ops.len() - i,
        {
            let place = ops[i];
            let op = self.opmove(place.0, place.1, place.2);
            op_tx.push(op);
            i += 1;
            assert(op_tx@ =~= minted(old(self).time(), ops@.take(i as int)));
        }
        assert(ops@.take(i as int) =~= ops@);
        op_tx
    }

    /// Where the clock stands.
    pub fn clock(&self) -> (time: Clock)
        ensures
            time == self.time(),
    {
        Clock { counter: self.counter, actor: self.actor }
    }

    /// The actor this replica was made for.
    pub fn actor(&self) -> (actor: &u64)
        ensures
            *actor == self.actor_id(),
    {
        &self.actor
    }

    /// A copy of tree and log as they stand.
    pub fn treestate(&self) -> (state: State)
        ensures
            state@ == self.state(),
            state@.well_formed(),
            acyclic(state@.tree),
    {
        proof {
            use_type_invariant(self);
            lemma_well_formed_acyclic(self.state());
        }
        State { log_op_list: self.treereplica.log(), tree: self.treereplica.tree() }
    }

    /// The replica underneath.
    pub fn treereplica(&self) -> (replica: &TreeReplica)
        ensures
            *replica == self.replica(),
    {
        &self.treereplica
    }

    /// Whether `op` is stamped by `source`.
    pub fn validate_opmove(&self, source: &u64, op: &OpMove) -> (res: Result<(), ValidationError>)
        ensures
            res == if op.timestamp.actor == *source {
                Ok::<(), ValidationError>(())
            } else {
                Err::<(), ValidationError>(ValidationError::SourceDoesNotMatchOp)
            },
    {
        if op.timestamp.actor != *source {
            Err(ValidationError::SourceDoesNotMatchOp)
        } else {
            Ok(())
        }
    }

    /// Whether every move of `op_tx` is stamped by `source`, the actor from which the
    /// broadcast layer received the transaction. One move of another actor is enough to
    /// turn the whole transaction down. Nothing is changed either way.
    pub fn validate(&self, source: &u64, op_tx: &OpMoveTx) -> (res: Result<(), ValidationError>)
        ensures
            res == if all_from(*source, op_tx@) {
                Ok::<(), ValidationError>(())
            } else {
                Err::<(), ValidationError>(ValidationError::SourceDoesNotMatchOp)
            },
    {
        let mut i: usize = 0;
        while i < op_tx.len()
            invariant
                0 <= i <= op_tx.len(),
                all_from(*source, op_tx@.take(i as int)),
            decreases op_tx.len() - i,
        {
            match self.validate_opmove(source, &op_tx[i]) {
                Ok(()) => {},
                Err(e) => {
                    return Err(e);
                },
            }
            assert forall|k: int| 0 <= k < i + 1 implies (#[trigger] op_tx@.take(
                i + 1,
            )[k]).timestamp.actor == *source by {
                if k < i {
                    assert(op_tx@.take(i as int)[k] == op_tx@[k]);
                }
            }
            i += 1;
        }
        assert(op_tx@.take(i as int) =~= op_tx@);
        Ok(())
    }

    /// Merges the moves of `op_tx`, one after another in the order given, and raises the
    /// clock to the highest counter among them, if that is higher than its own. The
    /// caller has validated the transaction; nothing is checked again here.
    pub fn apply(&mut self, op_tx: OpMoveTx)
        ensures
            final(self).state() == old(self).state().apply_ops(op_tx@),
            final(self).time() == merged_all(old(self).time(), op_tx@),
            final(self).time().counter >= old(self).time().counter,
            final(self).actor_id() == old(self).actor_id(),
            final(self).state().well_formed(),
            final(self).state().seen_by(final(self).time()),
            acyclic(final(self).state().tree),
    {
        proof {
            use_type_invariant(&*self);
        }
        let mut i: usize = 0;
        while i < op_tx.len()
            invariant
                0 <= i <= op_tx.len(),
                self.actor == old(self).actor,
                self.state().well_formed(),
                self.state().seen_by(self.time()),
                self.state() == old(self).state().apply_ops(op_tx@.take(i as int)),
                self.time() == merged_all(old(self).time(), op_tx@.take(i as int)),
            decreases op_tx.len() - i,
        {
            let op = op_tx[i];
            proof {
                lemma_apply_op_replays(self.state(), op);
                lemma_apply_op_seen(self.state(), op, self.time());
                assert(op_tx@.take(i + 1).drop_last() =~= op_tx@.take(i as int));
            }
            if self.counter < op.timestamp.counter {
                self.counter = op.timestamp.counter;
            }
            self.treereplica.apply_op(op);
            i += 1;
        }
        proof {
            assert(op_tx@.take(i as int) =~= op_tx@);
            lemma_well_formed_acyclic(self.state());
            lemma_merged_all_bounds(old(self).time(), op_tx@);
        }
    }
}

impl Clone for BRBTree {
    /// A second replica for the same actor, with the same tree, log and clock.
    fn clone(&self) -> (copy: BRBTree)
        ensures
            copy.state() == self.state(),
            copy.time() == self.time(),
            copy.actor_id() == self.actor_id(),
    {
        proof {
            use_type_invariant(self);
        }
        let treereplica = self.treereplica.clone();
        BRBTree { actor: self.actor, counter: self.counter, treereplica }
    }
}

} // verus!
