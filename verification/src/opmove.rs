//! The one operation of the replicated tree.

use crate::clock::Clock;
use vstd::prelude::*;

verus! {

/// A move: at time `timestamp`, make `child` a child of `parent`, with `metadata`
/// attached to that placement. Creating a node is a move of a fresh identifier;
/// deleting one is a move under a node that serves as trash.
#[derive(Clone, Copy, Debug, PartialEq, Eq, Structural, Hash)]
pub struct OpMove {
    pub timestamp: Clock,
    pub parent: u64,
    pub metadata: u64,
    pub child: u64,
}

/// A transaction: moves that are merged one after another, in the order given.
pub type OpMoveTx = Vec<OpMove>;

/// The moves that a replica whose clock stands at `time` mints for `places`, each a
/// triple of parent, metadata and child: the first carries the next timestamp, and each
/// one after it the timestamp after that of the one before.
pub open spec fn minted(time: Clock, places: Seq<(u64, u64, u64)>) -> Seq<OpMove> {
    Seq::new(
        places.len(),
        |i: int|
            OpMove {
                timestamp: time.ticked((i + 1) as nat),
                parent: places[i].0,
                metadata: places[i].1,
                child: places[i].2,
            },
    )
}

/// Each move is strictly newer than the one before it.
pub open spec fn strictly_ascending(ops: Seq<OpMove>) -> bool {
    forall|i: int, j: int|
        0 <= i < j < ops.len() ==> (#[trigger] ops[i]).timestamp.before((#[trigger] ops[j]).timestamp)
}

} // verus!
