use brb_dt_tree::{BRBTree, Clock, OpMove, ValidationError};

fn op_by(actor: u64, counter: u64) -> OpMove {
    OpMove { timestamp: Clock { counter, actor }, parent: 1, metadata: 0, child: 2 }
}

#[test]
fn validate_accepts_moves_of_the_source() {
    let tree = BRBTree::new(7);
    let tx = vec![op_by(3, 1), op_by(3, 2), op_by(3, 9)];
    assert_eq!(tree.validate(&3, &tx), Ok(()));
}

#[test]
fn validate_accepts_the_empty_transaction() {
    let tree = BRBTree::new(7);
    assert_eq!(tree.validate(&3, &Vec::new()), Ok(()));
}

#[test]
fn validate_rejects_a_move_of_another_actor() {
    let tree = BRBTree::new(7);
    let tx = vec![op_by(4, 1)];
    assert_eq!(tree.validate(&3, &tx), Err(ValidationError::SourceDoesNotMatchOp));
}

#[test]
fn validate_rejects_one_foreign_move_among_many() {
    let tree = BRBTree::new(7);
    let first = vec![op_by(4, 1), op_by(3, 2), op_by(3, 3)];
    let middle = vec![op_by(3, 1), op_by(4, 2), op_by(3, 3)];
    let last = vec![op_by(3, 1), op_by(3, 2), op_by(4, 3)];
    assert_eq!(tree.validate(&3, &first), Err(ValidationError::SourceDoesNotMatchOp));
    assert_eq!(tree.validate(&3, &middle), Err(ValidationError::SourceDoesNotMatchOp));
    assert_eq!(tree.validate(&3, &last), Err(ValidationError::SourceDoesNotMatchOp));
}

#[test]
fn validate_goes_by_the_source_not_by_the_replica() {
    let mut tree = BRBTree::new(7);
    let own = tree.opmovetx(1, 0, 2);
    assert_eq!(tree.validate(&7, &own), Ok(()));
    assert_eq!(tree.validate(&8, &own), Err(ValidationError::SourceDoesNotMatchOp));
    let foreign = vec![op_by(8, 1)];
    assert_eq!(tree.validate(&8, &foreign), Ok(()));
    assert_eq!(tree.validate(&7, &foreign), Err(ValidationError::SourceDoesNotMatchOp));
}

#[test]
fn validate_opmove_compares_actor_only() {
    let tree = BRBTree::new(1);
    assert_eq!(tree.validate_opmove(&5, &op_by(5, 0)), Ok(()));
    assert_eq!(tree.validate_opmove(&5, &op_by(5, u64::MAX)), Ok(()));
    assert_eq!(
        tree.validate_opmove(&5, &op_by(6, 0)),
        Err(ValidationError::SourceDoesNotMatchOp)
    );
    assert_eq!(
        tree.validate_opmove(&0, &op_by(u64::MAX, 3)),
        Err(ValidationError::SourceDoesNotMatchOp)
    );
}

#[test]
fn validate_leaves_the_replica_unchanged() {
    let mut tree = BRBTree::new(7);
    let tx = tree.opmovetx(0, 10, 1);
    tree.apply(tx);
    let before = tree.clone();
    assert_eq!(tree.validate(&7, &vec![op_by(7, 5)]), Ok(()));
    assert_eq!(tree.validate(&7, &vec![op_by(8, 5)]), Err(ValidationError::SourceDoesNotMatchOp));
    assert_eq!(tree, before);
    assert_eq!(tree.treestate(), before.treestate());
    assert_eq!(tree.clock(), before.clock());
}

#[test]
fn validation_error_says_what_went_wrong() {
    assert_eq!(
        ValidationError::SourceDoesNotMatchOp.message(),
        "The source actor does not match the actor associated with the operation"
    );
}
