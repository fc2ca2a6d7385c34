//! The code tree: leaves carry characters, inner nodes own two subtrees.

use vstd::prelude::*;

verus! {

/// A tagged binary tree. Each leaf holds one character; each inner node owns
/// its two children exclusively. A finished tree is never mutated.
pub enum Tree {
    Leaf { ch: char },
    Node { left: Box<Tree>, right: Box<Tree> },
}

impl Tree {
    /// Number of edges on the longest path from the root down to a leaf.
    pub open spec fn height(self) -> nat
        decreases self,
    {
        match self {
            Tree::Leaf { .. } => 0,
            Tree::Node { left, right } => 1 + if left.height() >= right.height() {
                left.height()
            } else {
                right.height()
            },
        }
    }

    /// The set of characters found at the leaves.
    pub open spec fn leaf_chars(self) -> Set<char>
        decreases self,
    {
        match self {
            Tree::Leaf { ch } => Set::empty().insert(ch),
            Tree::Node { left, right } => left.leaf_chars().union(right.leaf_chars()),
        }
    }

    /// No character labels two different leaves.
    pub open spec fn has_distinct_leaves(self) -> bool
        decreases self,
    {
        match self {
            Tree::Leaf { .. } => true,
            Tree::Node { left, right } => left.has_distinct_leaves()
                && right.has_distinct_leaves() && left.leaf_chars().disjoint(right.leaf_chars()),
        }
    }
}

} // verus!
