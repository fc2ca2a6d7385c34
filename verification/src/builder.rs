//! Merging the forest down to a single tree.
//!
//! While more than two entries remain, the two lightest are removed — the
//! first becomes the right child, the second the left — and the new node is
//! re-inserted by the combined weight. The last two entries form the root the
//! same way. An empty forest yields the sentinel leaf; a single entry is
//! returned unchanged.

use vstd::prelude::*;

use crate::forest::{
    forest_insert, forest_leaf_chars, get_sorted_index, lemma_forest_insert_leaf_chars,
    lemma_forest_insert_sorted, lemma_lower_bound_props, lemma_sum_weights_insert,
    lemma_sum_weights_nonneg, lower_bound, sorted_by_weight, sum_weights, WeightedEntry,
};
use crate::tree::Tree;

verus! {

/// One round of merging: the two lightest entries leave, their new parent
/// node is inserted at its sorted position.
pub open spec fn merge_step(f: Seq<WeightedEntry>) -> Seq<WeightedEntry>
    recommends
        f.len() > 2,
{
    forest_insert(
        f.subrange(2, f.len() as int),
        WeightedEntry {
            tree: Tree::Node { left: Box::new(f[1].tree), right: Box::new(f[0].tree) },
            weight: (f[0].weight + f[1].weight) as usize,
        },
    )
}

/// The tree that merging leaves: the sentinel leaf for an empty forest, the
/// lone subtree for a single entry, and otherwise the result of repeated
/// merge rounds, the final two entries forming the root.
pub open spec fn spec_merge(f: Seq<WeightedEntry>) -> Tree
    decreases f.len(),
    via spec_merge_decreases
{
    if f.len() == 0 {
        Tree::Leaf { ch: '\0' }
    } else if f.len() == 1 {
        f[0].tree
    } else if f.len() == 2 {
        Tree::Node { left: Box::new(f[1].tree), right: Box::new(f[0].tree) }
    } else {
        spec_merge(merge_step(f))
    }
}

#[via_fn]
proof fn spec_merge_decreases(f: Seq<WeightedEntry>) {
    if f.len() > 2 {
        lemma_merge_step_len(f);
    }
}

/// A merge round shortens the forest by one entry.
pub proof fn lemma_merge_step_len(f: Seq<WeightedEntry>)
    requires
        f.len() > 2,
    ensures
        merge_step(f).len() == f.len() - 1,
{
    let g = f.subrange(2, f.len() as int);
    let e = WeightedEntry {
        tree: Tree::Node { left: Box::new(f[1].tree), right: Box::new(f[0].tree) },
        weight: (f[0].weight + f[1].weight) as usize,
    };
    lemma_lower_bound_props(g, e.weight);
    g.insert_ensures(lower_bound(g, e.weight), e);
}

/// The two leading weights are no more than the whole sum.
pub proof fn lemma_sum_first_two(f: Seq<WeightedEntry>)
    requires
        f.len() >= 2,
    ensures
        sum_weights(f) == f[0].weight + f[1].weight + sum_weights(f.subrange(2, f.len() as int)),
        sum_weights(f) >= f[0].weight + f[1].weight,
{
    let tail = f.subrange(1, f.len() as int);
    assert(tail[0] == f[1]);
    assert(tail.subrange(1, tail.len() as int) =~= f.subrange(2, f.len() as int));
    assert(sum_weights(f) == f[0].weight + sum_weights(tail));
    assert(sum_weights(tail) == tail[0].weight + sum_weights(tail.subrange(1, tail.len() as int)));
    lemma_sum_weights_nonneg(f.subrange(2, f.len() as int));
}

/// A merge round keeps the total weight.
pub proof fn lemma_merge_step_sum(f: Seq<WeightedEntry>)
    requires
        f.len() > 2,
        sum_weights(f) <= usize::MAX,
    ensures
        sum_weights(merge_step(f)) == sum_weights(f),
{
    let g = f.subrange(2, f.len() as int);
    let e = WeightedEntry {
        tree: Tree::Node { left: Box::new(f[1].tree), right: Box::new(f[0].tree) },
        weight: (f[0].weight + f[1].weight) as usize,
    };
    lemma_sum_first_two(f);
    lemma_lower_bound_props(g, e.weight);
    lemma_sum_weights_insert(g, lower_bound(g, e.weight), e);
}

/// A merge round keeps the forest sorted.
pub proof fn lemma_merge_step_sorted(f: Seq<WeightedEntry>)
    requires
        f.len() > 2,
        sorted_by_weight(f),
    ensures
        sorted_by_weight(merge_step(f)),
{
    let g = f.subrange(2, f.len() as int);
    assert forall|i: int, j: int| 0 <= i < j < g.len() implies (#[trigger] g[i]).weight
        <= (#[trigger] g[j]).weight by {
        assert(g[i] == f[i + 2]);
        assert(g[j] == f[j + 2]);
    }
    lemma_forest_insert_sorted(
        g,
        WeightedEntry {
            tree: Tree::Node { left: Box::new(f[1].tree), right: Box::new(f[0].tree) },
            weight: (f[0].weight + f[1].weight) as usize,
        },
    );
}

/// A merge round keeps the set of leaf characters.
pub proof fn lemma_merge_step_leaf_chars(f: Seq<WeightedEntry>)
    requires
        f.len() > 2,
    ensures
        forest_leaf_chars(merge_step(f)) == forest_leaf_chars(f),
{
    let g = f.subrange(2, f.len() as int);
    let e = WeightedEntry {
        tree: Tree::Node { left: Box::new(f[1].tree), right: Box::new(f[0].tree) },
        weight: (f[0].weight + f[1].weight) as usize,
    };
    lemma_forest_insert_leaf_chars(g, e);
    assert(e.tree.leaf_chars() == f[1].tree.leaf_chars().union(f[0].tree.leaf_chars()));
    assert(forest_leaf_chars(g).union(e.tree.leaf_chars()) =~= forest_leaf_chars(f)) by {
        assert forall|ch: char| forest_leaf_chars(f).contains(ch) implies forest_leaf_chars(
            g,
        ).union(e.tree.leaf_chars()).contains(ch) by {
            let i = choose|i: int|
                0 <= i < f.len() && (#[trigger] f[i]).tree.leaf_chars().contains(ch);
            if i >= 2 {
                assert(g[i - 2].tree.leaf_chars().contains(ch));
            }
        }
        assert forall|ch: char|
            forest_leaf_chars(g).union(e.tree.leaf_chars()).contains(ch) implies forest_leaf_chars(
            f,
        ).contains(ch) by {
            if forest_leaf_chars(g).contains(ch) {
                let i = choose|i: int|
                    0 <= i < g.len() && (#[trigger] g[i]).tree.leaf_chars().contains(ch);
                assert(f[i + 2].tree.leaf_chars().contains(ch));
            } else {
                if f[1].tree.leaf_chars().contains(ch) {
                } else {
                    assert(f[0].tree.leaf_chars().contains(ch));
                }
            }
        }
    }
}

/// The merged tree carries exactly the characters of the forest's leaves.
pub proof fn lemma_merge_leaf_chars(f: Seq<WeightedEntry>)
    requires
        f.len() >= 1,
    ensures
        spec_merge(f).leaf_chars() == forest_leaf_chars(f),
    decreases f.len(),
{
    if f.len() == 1 {
        assert(spec_merge(f).leaf_chars() =~= forest_leaf_chars(f)) by {
            assert forall|ch: char|
                forest_leaf_chars(f).contains(ch) implies f[0].tree.leaf_chars().contains(ch) by {
                let i = choose|i: int|
                    0 <= i < f.len() && (#[trigger] f[i]).tree.leaf_chars().contains(ch);
                assert(i == 0);
            }
        }
    } else if f.len() == 2 {
        assert(spec_merge(f).leaf_chars() == f[1].tree.leaf_chars().union(
            f[0].tree.leaf_chars(),
        ));
        assert(spec_merge(f).leaf_chars() =~= forest_leaf_chars(f)) by {
            assert forall|ch: char|
                forest_leaf_chars(f).contains(ch) implies f[1].tree.leaf_chars().union(
                f[0].tree.leaf_chars(),
            ).contains(ch) by {
                let i = choose|i: int|
                    0 <= i < f.len() && (#[trigger] f[i]).tree.leaf_chars().contains(ch);
            }
            assert forall|ch: char|
                f[1].tree.leaf_chars().union(f[0].tree.leaf_chars()).contains(
                ch,
            ) implies forest_leaf_chars(f).contains(ch) by {
                if f[1].tree.leaf_chars().contains(ch) {
                    assert(f[1].tree.leaf_chars().contains(ch));
                } else {
                    assert(f[0].tree.leaf_chars().contains(ch));
                }
            }
        }
    } else {
        lemma_merge_step_len(f);
        lemma_merge_leaf_chars(merge_step(f));
        lemma_merge_step_leaf_chars(f);
    }
}

/// Merges the forest into one tree: repeatedly removes the two lightest
/// entries (first removed becomes the right child, second the left),
/// re-inserts the combined node by weight, and joins the final two the same
/// way. An empty forest yields the sentinel leaf; a single entry its subtree.
pub fn get_tree(tree_as_vector: Vec<WeightedEntry>) -> (r: Tree)
    requires
        sorted_by_weight(tree_as_vector@),
        sum_weights(tree_as_vector@) <= usize::MAX,
    ensures
        r == spec_merge(tree_as_vector@),
{
    let ghost orig = tree_as_vector@;
    let mut v = tree_as_vector;
    if v.len() == 0 {
        return Tree::Leaf { ch: '\0' };
    }
    if v.len() == 1 {
        let e = v.remove(0);
        return e.tree;
    }
    while v.len() > 2
        invariant
            sorted_by_weight(v@),
            sum_weights(v@) <= usize::MAX,
            v@.len() >= 2,
            spec_merge(v@) == spec_merge(orig),
        decreases v@.len(),
    {
        let ghost f = v@;
        let right = v.remove(0);
        let left = v.remove(0);
        proof {
            assert(right == f[0]);
            assert(left == f[1]);
            assert(v@ =~= f.subrange(2, f.len() as int));
            lemma_sum_first_two(f);
        }
        let count = left.weight + right.weight;
        let index = get_sorted_index(&v, &count);
        let node = WeightedEntry {
            tree: Tree::Node { left: Box::new(left.tree), right: Box::new(right.tree) },
            weight: count,
        };
        proof {
            lemma_lower_bound_props(v@, count);
            lemma_merge_step_sorted(f);
            lemma_merge_step_sum(f);
            lemma_merge_step_len(f);
        }
        v.insert(index, node);
        proof {
            assert(v@ == merge_step(f));
        }
    }
    let right = v.remove(0);
    let left = v.remove(0);
    Tree::Node { left: Box::new(left.tree), right: Box::new(right.tree) }
}

} // verus!
