use brb_dt_tree::{BRBTree, Clock, OpMove, TreeReplica};

#[test]
fn new_replica_is_empty() {
    let tree = BRBTree::new(42);
    assert_eq!(*tree.actor(), 42);
    assert_eq!(tree.clock(), Clock { counter: 0, actor: 42 });
    let state = tree.treestate();
    assert!(state.log_op_list.is_empty());
    assert!(state.tree.is_empty());
}

#[test]
fn treereplica_is_the_replica_underneath() {
    let mut tree = BRBTree::new(42);
    let fresh = BRBTree::new(42);
    let same: bool = {
        let replica: &TreeReplica = tree.treereplica();
        replica == fresh.treereplica()
    };
    assert!(same);
    let tx = tree.opmovetx(0, 1, 2);
    assert!(tree.treereplica() == fresh.treereplica());
    tree.apply(tx);
    assert!(tree.treereplica() != fresh.treereplica());
}

#[test]
fn opmove_takes_the_next_timestamp() {
    let mut tree = BRBTree::new(3);
    let op = tree.opmove(10, 20, 30);
    let expected =
        OpMove { timestamp: Clock { counter: 1, actor: 3 }, parent: 10, metadata: 20, child: 30 };
    assert_eq!(op, expected);
    assert_eq!(tree.clock(), Clock { counter: 1, actor: 3 });
}

#[test]
fn minting_advances_the_clock() {
    let mut tree = BRBTree::new(3);
    let first = tree.opmove(10, 20, 30);
    let second = tree.opmove(11, 21, 31);
    let third = tree.opmovetx(12, 22, 32);
    assert_eq!(first.timestamp, Clock { counter: 1, actor: 3 });
    assert_eq!(second.timestamp, Clock { counter: 2, actor: 3 });
    assert_eq!(third[0].timestamp, Clock { counter: 3, actor: 3 });
    assert!(first.timestamp < second.timestamp);
    assert!(second.timestamp < third[0].timestamp);
    assert_eq!(tree.clock(), Clock { counter: 3, actor: 3 });
}

#[test]
fn minting_leaves_tree_and_log_alone() {
    let mut tree = BRBTree::new(3);
    let tx = tree.opmovetx(0, 1, 2);
    tree.apply(tx);
    let before = tree.treestate();
    let _ = tree.opmove(2, 0, 5);
    let _ = tree.opmovetx_multi(vec![(2, 0, 6), (6, 0, 7)]);
    assert_eq!(tree.treestate(), before);
    assert_eq!(*tree.actor(), 3);
}

#[test]
fn opmovetx_holds_one_move() {
    let mut tree = BRBTree::new(3);
    let tx = tree.opmovetx(10, 20, 30);
    let expected =
        OpMove { timestamp: Clock { counter: 1, actor: 3 }, parent: 10, metadata: 20, child: 30 };
    assert_eq!(tx, vec![expected]);
    assert_eq!(tree.clock(), Clock { counter: 1, actor: 3 });
}

#[test]
fn opmovetx_multi_stamps_successive_timestamps() {
    let mut tree = BRBTree::new(5);
    let tx = tree.opmovetx_multi(vec![(0, 100, 1), (1, 101, 2), (2, 102, 3)]);
    let expected = vec![
        OpMove { timestamp: Clock { counter: 1, actor: 5 }, parent: 0, metadata: 100, child: 1 },
        OpMove { timestamp: Clock { counter: 2, actor: 5 }, parent: 1, metadata: 101, child: 2 },
        OpMove { timestamp: Clock { counter: 3, actor: 5 }, parent: 2, metadata: 102, child: 3 },
    ];
    assert_eq!(tx, expected);
    assert_eq!(tree.clock(), Clock { counter: 3, actor: 5 });
    let next = tree.opmovetx_multi(vec![(3, 103, 4)]);
    assert_eq!(next[0].timestamp, Clock { counter: 4, actor: 5 });
}

#[test]
fn opmovetx_multi_of_nothing_is_empty() {
    let mut tree = BRBTree::new(5);
    let _ = tree.opmove(0, 0, 1);
    assert!(tree.opmovetx_multi(Vec::new()).is_empty());
    assert_eq!(tree.clock(), Clock { counter: 1, actor: 5 });
}

#[test]
fn a_mint_after_own_applied_moves_is_newer() {
    let mut tree = BRBTree::new(5);
    let tx = tree.opmovetx_multi(vec![(0, 100, 1), (1, 101, 2)]);
    tree.apply(tx);
    assert_eq!(tree.clock(), Clock { counter: 2, actor: 5 });
    let next = tree.opmove(2, 102, 3);
    assert_eq!(next.timestamp, Clock { counter: 3, actor: 5 });
}

#[test]
fn applying_a_remote_move_raises_the_clock_to_its_counter() {
    let mut tree = BRBTree::new(5);
    let own = tree.opmove(0, 0, 9);
    let remote =
        OpMove { timestamp: Clock { counter: 40, actor: 9 }, parent: 0, metadata: 0, child: 1 };
    tree.apply(vec![remote]);
    assert_eq!(tree.clock(), Clock { counter: 40, actor: 5 });
    let after_remote = tree.opmove(0, 0, 2);
    assert_eq!(after_remote.timestamp, Clock { counter: 41, actor: 5 });
    assert!(own.timestamp < after_remote.timestamp);
    assert!(remote.timestamp < after_remote.timestamp);
    let older =
        OpMove { timestamp: Clock { counter: 7, actor: 9 }, parent: 0, metadata: 0, child: 3 };
    tree.apply(vec![older]);
    assert_eq!(tree.clock(), Clock { counter: 41, actor: 5 });
    assert_eq!(tree.opmove(0, 0, 2).timestamp, Clock { counter: 42, actor: 5 });
    assert_eq!(*tree.actor(), 5);
}

#[test]
fn applying_takes_the_highest_counter_of_a_transaction() {
    let mut tree = BRBTree::new(5);
    let tx = vec![
        OpMove { timestamp: Clock { counter: 8, actor: 2 }, parent: 0, metadata: 0, child: 1 },
        OpMove { timestamp: Clock { counter: 30, actor: 2 }, parent: 0, metadata: 0, child: 2 },
        OpMove { timestamp: Clock { counter: 12, actor: 2 }, parent: 0, metadata: 0, child: 3 },
    ];
    tree.apply(tx);
    assert_eq!(tree.clock(), Clock { counter: 30, actor: 5 });
}

#[test]
fn the_counter_stops_at_its_maximum() {
    let mut tree = BRBTree::new(5);
    let last = OpMove {
        timestamp: Clock { counter: u64::MAX - 1, actor: 9 },
        parent: 0,
        metadata: 0,
        child: 1,
    };
    tree.apply(vec![last]);
    let tx = tree.opmovetx_multi(vec![(0, 0, 2), (0, 0, 3), (0, 0, 4)]);
    assert_eq!(tx[0].timestamp, Clock { counter: u64::MAX, actor: 5 });
    assert_eq!(tx[1].timestamp, Clock { counter: u64::MAX, actor: 5 });
    assert_eq!(tx[2].timestamp, Clock { counter: u64::MAX, actor: 5 });
    assert_eq!(tree.opmove(0, 0, 2).timestamp, Clock { counter: u64::MAX, actor: 5 });
    assert_eq!(tree.clock(), Clock { counter: u64::MAX, actor: 5 });
}

#[test]
fn a_copy_goes_its_own_way() {
    let mut tree = BRBTree::new(5);
    let tx = tree.opmovetx(0, 1, 2);
    tree.apply(tx);
    let mut copy = tree.clone();
    assert_eq!(copy, tree);
    assert_eq!(copy.treestate(), tree.treestate());
    assert_eq!(copy.clock(), tree.clock());
    let more = copy.opmovetx(2, 0, 3);
    copy.apply(more);
    assert_eq!(copy.treestate().log_op_list.len(), 2);
    assert_eq!(tree.treestate().log_op_list.len(), 1);
    assert_eq!(tree.clock(), Clock { counter: 1, actor: 5 });
}
