//! A conflict-free replicated tree that a Byzantine-tolerant broadcast layer can drive.
//!
//! Every replica keeps a tree of nodes and a log of the move operations it has merged.
//! Replicas that have merged the same operations hold the same tree, whatever the order
//! in which the operations reached them.

pub mod brb_tree;
pub mod clock;
pub mod convergence;
pub mod counter;
pub mod opmove;
pub mod replica;
pub mod state;
pub mod tree;

pub use brb_tree::{BRBTree, ValidationError};
pub use clock::Clock;
pub use opmove::{OpMove, OpMoveTx};
pub use replica::TreeReplica;
pub use state::{LogOpMove, State, TreeState};
pub use tree::TreeNode;
