//! The tree itself: who is whose parent, and what it means to be an ancestor.

use crate::opmove::OpMove;
use vstd::prelude::*;

verus! {

/// Where a node hangs: its parent, and the metadata of that placement.
#[derive(Clone, Copy, Debug, PartialEq, Eq, Structural, Hash)]
pub struct TreeNode {
    pub parent: u64,
    pub metadata: u64,
}

/// A tree as a mathematical map from each placed node to its parent and metadata.
/// A key has one value, so a node never hangs in two places.
pub type TreeMap = Map<u64, TreeNode>;

/// `ancestor` is reached from `node` by going up at least one and at most `steps` parents.
pub open spec fn ancestor_within(tree: TreeMap, node: u64, ancestor: u64, steps: nat) -> bool
    decreases steps,
{
    steps > 0 && tree.contains_key(node) && (tree[node].parent == ancestor || ancestor_within(
        tree,
        tree[node].parent,
        ancestor,
        (steps - 1) as nat,
    ))
}

/// `ancestor` is the parent of `node`, or the parent of its parent, and so on.
pub open spec fn is_ancestor(tree: TreeMap, node: u64, ancestor: u64) -> bool {
    exists|steps: nat| ancestor_within(tree, node, ancestor, steps)
}

/// No node is its own ancestor.
pub open spec fn acyclic(tree: TreeMap) -> bool {
    forall|node: u64| !is_ancestor(tree, node, node)
}

/// The move would tie the tree into a knot: it puts a node under itself, or under one
/// of its own descendants.
pub open spec fn makes_cycle(tree: TreeMap, op: OpMove) -> bool {
    op.child == op.parent || is_ancestor(tree, op.parent, op.child)
}

/// The tree after a move. A move that would make a cycle leaves it as it is; any other
/// takes the child from wherever it hangs and places it under the new parent.
pub open spec fn moved(tree: TreeMap, op: OpMove) -> TreeMap {
    if makes_cycle(tree, op) {
        tree
    } else {
        tree.insert(op.child, TreeNode { parent: op.parent, metadata: op.metadata })
    }
}

/// More steps reach whatever fewer steps reach.
pub proof fn lemma_ancestor_within_more_steps(
    tree: TreeMap,
    node: u64,
    ancestor: u64,
    steps: nat,
    more: nat,
)
    requires
        ancestor_within(tree, node, ancestor, steps),
        steps <= more,
    ensures
        ancestor_within(tree, node, ancestor, more),
    decreases steps,
{
    if tree[node].parent != ancestor {
        lemma_ancestor_within_more_steps(
            tree,
            tree[node].parent,
            ancestor,
            (steps - 1) as nat,
            (more - 1) as nat,
        );
    }
}

/// An ancestor of an ancestor is an ancestor.
pub proof fn lemma_ancestor_within_transitive(
    tree: TreeMap,
    node: u64,
    middle: u64,
    ancestor: u64,
    first: nat,
    second: nat,
)
    requires
        ancestor_within(tree, node, middle, first),
        ancestor_within(tree, middle, ancestor, second),
    ensures
        ancestor_within(tree, node, ancestor, first + second),
    decreases first,
{
    if tree[node].parent == middle {
        lemma_ancestor_within_more_steps(
            tree,
            middle,
            ancestor,
            second,
            (first + second - 1) as nat,
        );
    } else {
        lemma_ancestor_within_transitive(
            tree,
            tree[node].parent,
            middle,
            ancestor,
            (first - 1) as nat,
            second,
        );
    }
}

/// A way up in the tree after `child` was placed under `parent` either avoids the new
/// edge, and then it was a way up before, or it passes through `child`.
proof fn lemma_way_up_after_insert(
    tree: TreeMap,
    child: u64,
    placed: TreeNode,
    node: u64,
    ancestor: u64,
    steps: nat,
)
    requires
        ancestor_within(tree.insert(child, placed), node, ancestor, steps),
    ensures
        ancestor_within(tree, node, ancestor, steps) || ((node == child || ancestor_within(
            tree,
            node,
            child,
            steps,
        )) && ancestor_within(tree.insert(child, placed), child, ancestor, steps)),
    decreases steps,
{
    let after = tree.insert(child, placed);
    if node != child {
        let up = tree[node].parent;
        assert(after[node] == tree[node]);
        if up != ancestor {
            lemma_way_up_after_insert(tree, child, placed, up, ancestor, (steps - 1) as nat);
            if !ancestor_within(tree, up, ancestor, (steps - 1) as nat) {
                lemma_ancestor_within_more_steps(
                    after,
                    child,
                    ancestor,
                    (steps - 1) as nat,
                    steps,
                );
            }
        }
    }
}

/// A move keeps an acyclic tree acyclic.
pub proof fn lemma_moved_acyclic(tree: TreeMap, op: OpMove)
    requires
        acyclic(tree),
    ensures
        acyclic(moved(tree, op)),
{
    if !makes_cycle(tree, op) {
        let placed = TreeNode { parent: op.parent, metadata: op.metadata };
        let after = tree.insert(op.child, placed);
        assert forall|node: u64| !is_ancestor(after, node, node) by {
            if is_ancestor(after, node, node) {
                let steps = choose|steps: nat| ancestor_within(after, node, node, steps);
                lemma_way_up_after_insert(tree, op.child, placed, node, node, steps);
                assert(!is_ancestor(tree, node, node));
                // The cycle passes through the child, so the child's new parent leads
                // back to `node`, and `node` leads to the child.
                assert(ancestor_within(after, op.child, node, steps));
                assert(after[op.child] == placed);
                if op.parent != node {
                    lemma_way_up_after_insert(
                        tree,
                        op.child,
                        placed,
                        op.parent,
                        node,
                        (steps - 1) as nat,
                    );
                }
                if node != op.child {
                    if op.parent == node {
                        assert(ancestor_within(tree, op.parent, op.child, steps));
                    } else if ancestor_within(tree, op.parent, node, (steps - 1) as nat) {
                        lemma_ancestor_within_transitive(
                            tree,
                            op.parent,
                            node,
                            op.child,
                            (steps - 1) as nat,
                            steps,
                        );
                    }
                }
                assert(is_ancestor(tree, op.parent, op.child));
            }
        }
    }
}

} // verus!
