//! The working forest: subtrees paired with weights, kept sorted ascending.
//!
//! New entries go to the leftmost position whose weight is not smaller, found
//! by binary search. Entries of equal weight therefore keep their relative
//! insertion order, which pins the shape of the final tree.

use vstd::prelude::*;

use crate::freq::{freq_has_key, freq_table_of, sum_counts, FreqEntry, FreqMap};
use crate::tree::Tree;

verus! {

/// A subtree paired with its weight: the sum of the occurrence counts of the
/// characters at its leaves.
pub struct WeightedEntry {
    pub tree: Tree,
    pub weight: usize,
}

/// Weights never decrease from left to right.
pub open spec fn sorted_by_weight(f: Seq<WeightedEntry>) -> bool {
    forall|i: int, j: int|
        0 <= i < j < f.len() ==> (#[trigger] f[i]).weight <= (#[trigger] f[j]).weight
}

/// Length of the longest prefix whose weights are all below `w`: in a sorted
/// forest, the leftmost position where an entry of weight `w` belongs.
pub open spec fn lower_bound(f: Seq<WeightedEntry>, w: usize) -> int
    decreases f.len(),
{
    if f.len() == 0 {
        0
    } else if f[0].weight < w {
        1 + lower_bound(f.subrange(1, f.len() as int), w)
    } else {
        0
    }
}

/// `e` placed at its lower-bound position.
pub open spec fn forest_insert(f: Seq<WeightedEntry>, e: WeightedEntry) -> Seq<WeightedEntry> {
    f.insert(lower_bound(f, e.weight), e)
}

/// The total of all weights.
pub open spec fn sum_weights(f: Seq<WeightedEntry>) -> int
    decreases f.len(),
{
    if f.len() == 0 {
        0
    } else {
        f[0].weight + sum_weights(f.subrange(1, f.len() as int))
    }
}

/// Every character found at a leaf of some entry.
pub open spec fn forest_leaf_chars(f: Seq<WeightedEntry>) -> Set<char> {
    Set::new(
        |ch: char|
            exists|i: int| 0 <= i < f.len() && (#[trigger] f[i]).tree.leaf_chars().contains(ch),
    )
}

/// The forest built from a frequency mapping: each entry becomes a leaf,
/// inserted at its sorted position, in mapping order.
pub open spec fn spec_parse_map(entries: Seq<FreqEntry>) -> Seq<WeightedEntry>
    decreases entries.len(),
{
    if entries.len() == 0 {
        Seq::empty()
    } else {
        forest_insert(
            spec_parse_map(entries.drop_last()),
            WeightedEntry {
                tree: Tree::Leaf { ch: entries.last().ch },
                weight: entries.last().count,
            },
        )
    }
}

/// The lower bound is a position in the forest; everything before it weighs
/// less than `w`, and the entry there (if any) does not.
pub proof fn lemma_lower_bound_props(f: Seq<WeightedEntry>, w: usize)
    ensures
        0 <= lower_bound(f, w) <= f.len(),
        forall|j: int| 0 <= j < lower_bound(f, w) ==> (#[trigger] f[j]).weight < w,
        lower_bound(f, w) < f.len() ==> f[lower_bound(f, w)].weight >= w,
    decreases f.len(),
{
    if f.len() > 0 && f[0].weight < w {
        let tail = f.subrange(1, f.len() as int);
        lemma_lower_bound_props(tail, w);
        assert forall|j: int| 0 <= j < lower_bound(f, w) implies (#[trigger] f[j]).weight < w by {
            if j > 0 {
                assert(tail[j - 1].weight < w);
            }
        }
    }
}

/// In a sorted forest every entry from the lower bound on weighs at least `w`.
pub proof fn lemma_lower_bound_sorted(f: Seq<WeightedEntry>, w: usize)
    requires
        sorted_by_weight(f),
    ensures
        forall|j: int| lower_bound(f, w) <= j < f.len() ==> (#[trigger] f[j]).weight >= w,
{
    lemma_lower_bound_props(f, w);
    let p = lower_bound(f, w);
    assert forall|j: int| p <= j < f.len() implies (#[trigger] f[j]).weight >= w by {
        assert(f[p].weight >= w);
        if j > p {
            assert(f[p].weight <= f[j].weight);
        }
    }
}

/// A position that splits the weights below `w` from the rest is the lower
/// bound.
pub proof fn lemma_lower_bound_unique(f: Seq<WeightedEntry>, w: usize, i: int)
    requires
        0 <= i <= f.len(),
        forall|j: int| 0 <= j < i ==> (#[trigger] f[j]).weight < w,
        forall|j: int| i <= j < f.len() ==> (#[trigger] f[j]).weight >= w,
    ensures
        i == lower_bound(f, w),
    decreases f.len(),
{
    if f.len() == 0 {
    } else if i == 0 {
        assert(f[0].weight >= w);
    } else {
        assert(f[0].weight < w);
        let tail = f.subrange(1, f.len() as int);
        assert forall|j: int| 0 <= j < i - 1 implies (#[trigger] tail[j]).weight < w by {
            assert(tail[j] == f[j + 1]);
        }
        assert forall|j: int| i - 1 <= j < tail.len() implies (#[trigger] tail[j]).weight >= w by {
            assert(tail[j] == f[j + 1]);
        }
        lemma_lower_bound_unique(tail, w, i - 1);
    }
}

/// Inserting at the lower bound keeps the forest sorted.
pub proof fn lemma_forest_insert_sorted(f: Seq<WeightedEntry>, e: WeightedEntry)
    requires
        sorted_by_weight(f),
    ensures
        sorted_by_weight(forest_insert(f, e)),
        forest_insert(f, e).len() == f.len() + 1,
{
    let w = e.weight;
    let p = lower_bound(f, w);
    lemma_lower_bound_props(f, w);
    lemma_lower_bound_sorted(f, w);
    f.insert_ensures(p, e);
    let g = forest_insert(f, e);
    assert forall|i: int, j: int| 0 <= i < j < g.len() implies (#[trigger] g[i]).weight
        <= (#[trigger] g[j]).weight by {
        if i < p {
            assert(g[i] == f[i]);
        } else if i > p {
            assert(g[i] == f[i - 1]);
        }
        if j < p {
            assert(g[j] == f[j]);
        } else if j > p {
            assert(g[j] == f[j - 1]);
        }
    }
}

/// The sum of weights is never negative.
pub proof fn lemma_sum_weights_nonneg(f: Seq<WeightedEntry>)
    ensures
        sum_weights(f) >= 0,
    decreases f.len(),
{
    if f.len() > 0 {
        lemma_sum_weights_nonneg(f.subrange(1, f.len() as int));
    }
}

/// Inserting an entry adds its weight to the sum.
pub proof fn lemma_sum_weights_insert(f: Seq<WeightedEntry>, i: int, e: WeightedEntry)
    requires
        0 <= i <= f.len(),
    ensures
        sum_weights(f.insert(i, e)) == sum_weights(f) + e.weight,
    decreases f.len(),
{
    let g = f.insert(i, e);
    f.insert_ensures(i, e);
    if i == 0 {
        assert(g[0] == e);
        assert(g.subrange(1, g.len() as int) =~= f);
    } else {
        assert(g[0] == f[0]);
        let ftail = f.subrange(1, f.len() as int);
        ftail.insert_ensures(i - 1, e);
        assert(g.subrange(1, g.len() as int) =~= ftail.insert(i - 1, e));
        lemma_sum_weights_insert(ftail, i - 1, e);
    }
}

/// Inserting an entry adds exactly its leaf characters.
pub proof fn lemma_forest_insert_leaf_chars(f: Seq<WeightedEntry>, e: WeightedEntry)
    ensures
        forest_leaf_chars(forest_insert(f, e)) == forest_leaf_chars(f).union(e.tree.leaf_chars()),
{
    let p = lower_bound(f, e.weight);
    lemma_lower_bound_props(f, e.weight);
    f.insert_ensures(p, e);
    let g = forest_insert(f, e);
    assert(forest_leaf_chars(g) =~= forest_leaf_chars(f).union(e.tree.leaf_chars())) by {
        assert forall|ch: char| forest_leaf_chars(g).contains(ch) implies forest_leaf_chars(
            f,
        ).union(e.tree.leaf_chars()).contains(ch) by {
            let i = choose|i: int|
                0 <= i < g.len() && (#[trigger] g[i]).tree.leaf_chars().contains(ch);
            if i < p {
                assert(f[i].tree.leaf_chars().contains(ch));
            } else if i > p {
                assert(f[i - 1].tree.leaf_chars().contains(ch));
            }
        }
        assert forall|ch: char|
            forest_leaf_chars(f).union(e.tree.leaf_chars()).contains(ch) implies forest_leaf_chars(
            g,
        ).contains(ch) by {
            if forest_leaf_chars(f).contains(ch) {
                let i = choose|i: int|
                    0 <= i < f.len() && (#[trigger] f[i]).tree.leaf_chars().contains(ch);
                if i < p {
                    assert(g[i].tree.leaf_chars().contains(ch));
                } else {
                    assert(g[i + 1].tree.leaf_chars().contains(ch));
                }
            } else {
                assert(g[p].tree.leaf_chars().contains(ch));
            }
        }
    }
}

/// The forest of a frequency mapping is sorted ascending by weight; so is the
/// forest after each single insertion, since every prefix of the mapping
/// yields the forest at that stage.
pub proof fn lemma_parse_map_sorted(entries: Seq<FreqEntry>)
    ensures
        sorted_by_weight(spec_parse_map(entries)),
    decreases entries.len(),
{
    if entries.len() > 0 {
        lemma_parse_map_sorted(entries.drop_last());
        lemma_forest_insert_sorted(
            spec_parse_map(entries.drop_last()),
            WeightedEntry {
                tree: Tree::Leaf { ch: entries.last().ch },
                weight: entries.last().count,
            },
        );
    }
}

/// The weights of the forest add up to the counts of the mapping.
pub proof fn lemma_parse_map_sum(entries: Seq<FreqEntry>)
    ensures
        sum_weights(spec_parse_map(entries)) == sum_counts(entries),
    decreases entries.len(),
{
    if entries.len() > 0 {
        let e0 = entries.drop_last();
        let leaf = WeightedEntry {
            tree: Tree::Leaf { ch: entries.last().ch },
            weight: entries.last().count,
        };
        let g = spec_parse_map(e0);
        let p = lower_bound(g, leaf.weight);
        lemma_parse_map_sum(e0);
        lemma_lower_bound_props(g, leaf.weight);
        lemma_sum_weights_insert(g, p, leaf);
        assert(spec_parse_map(entries) == forest_insert(g, leaf));
        assert(sum_counts(entries) == sum_counts(e0) + leaf.weight);
    }
}

/// The forest has one entry per mapping entry.
pub proof fn lemma_parse_map_len(entries: Seq<FreqEntry>)
    ensures
        spec_parse_map(entries).len() == entries.len(),
    decreases entries.len(),
{
    if entries.len() > 0 {
        let e0 = entries.drop_last();
        let leaf = WeightedEntry {
            tree: Tree::Leaf { ch: entries.last().ch },
            weight: entries.last().count,
        };
        lemma_parse_map_len(e0);
        lemma_lower_bound_props(spec_parse_map(e0), leaf.weight);
        spec_parse_map(e0).insert_ensures(lower_bound(spec_parse_map(e0), leaf.weight), leaf);
        assert(spec_parse_map(entries) == forest_insert(spec_parse_map(e0), leaf));
    }
}

/// The forest carries exactly the characters of the mapping.
pub proof fn lemma_parse_map_leaf_chars(entries: Seq<FreqEntry>)
    ensures
        forest_leaf_chars(spec_parse_map(entries)) == Set::new(
            |ch: char| freq_has_key(entries, ch),
        ),
    decreases entries.len(),
{
    if entries.len() == 0 {
        assert(forest_leaf_chars(spec_parse_map(entries)) =~= Set::new(
            |ch: char| freq_has_key(entries, ch),
        ));
    } else {
        let e0 = entries.drop_last();
        let last = entries.last();
        let leaf = WeightedEntry { tree: Tree::Leaf { ch: last.ch }, weight: last.count };
        lemma_parse_map_leaf_chars(e0);
        lemma_forest_insert_leaf_chars(spec_parse_map(e0), leaf);
        assert(forest_leaf_chars(spec_parse_map(entries)) =~= Set::new(
            |ch: char| freq_has_key(entries, ch),
        )) by {
            assert forall|ch: char| freq_has_key(e0, ch) || ch == last.ch implies freq_has_key(
                entries,
                ch,
            ) by {
                if freq_has_key(e0, ch) {
                    let i = choose|i: int| 0 <= i < e0.len() && (#[trigger] e0[i]).ch == ch;
                    assert(entries[i].ch == ch);
                } else {
                    assert(entries[entries.len() - 1].ch == ch);
                }
            }
            assert forall|ch: char| freq_has_key(entries, ch) implies freq_has_key(e0, ch) || ch
                == last.ch by {
                let i = choose|i: int| 0 <= i < entries.len() && (#[trigger] entries[i]).ch == ch;
                if i < entries.len() - 1 {
                    assert(e0[i].ch == ch);
                }
            }
            assert(leaf.tree == (Tree::Leaf { ch: last.ch }));
            assert(leaf.tree.leaf_chars() =~= Set::empty().insert(last.ch));
        }
    }
}

/// The weights of the forest built from a non-empty text's frequency mapping
/// add up to the length of the text.
pub proof fn lemma_initial_forest_weight_sum(entries: Seq<FreqEntry>, text: Seq<char>)
    requires
        freq_table_of(entries, text),
        text.len() > 0,
    ensures
        sum_weights(spec_parse_map(entries)) == text.len(),
{
    crate::freq::lemma_freq_table_sum(entries, text);
    lemma_parse_map_sum(entries);
}

/// Finds the sorted position for weight `other`: the leftmost index whose
/// entry does not weigh less, by binary search over the weights.
pub fn get_sorted_index(sorted_vector: &Vec<WeightedEntry>, other: &usize) -> (r: usize)
    requires
        sorted_by_weight(sorted_vector@),
    ensures
        r == lower_bound(sorted_vector@, *other),
{
    let w = *other;
    let mut lo: usize = 0;
    let mut hi: usize = sorted_vector.len();
    while lo < hi
        invariant
            sorted_by_weight(sorted_vector@),
            lo <= hi <= sorted_vector@.len(),
            forall|j: int| 0 <= j < lo ==> (#[trigger] sorted_vector@[j]).weight < w,
            forall|j: int|
                hi <= j < sorted_vector@.len() ==> (#[trigger] sorted_vector@[j]).weight >= w,
        decreases hi - lo,
    {
        let mid = lo + (hi - lo) / 2;
        let wmid = sorted_vector[mid].weight;
        if wmid < w {
            proof {
                assert forall|j: int| 0 <= j < mid + 1 implies (#[trigger] sorted_vector@[j]).weight
                    < w by {
                    if j < mid {
                        assert(sorted_vector@[j].weight <= sorted_vector@[mid as int].weight);
                    }
                }
            }
            lo = mid + 1;
        } else {
            proof {
                assert forall|j: int|
                    mid <= j < sorted_vector@.len() implies (#[trigger] sorted_vector@[j]).weight
                    >= w by {
                    if j > mid {
                        assert(sorted_vector@[mid as int].weight <= sorted_vector@[j].weight);
                    }
                }
            }
            hi = mid;
        }
    }
    proof {
        lemma_lower_bound_unique(sorted_vector@, w, lo as int);
    }
    lo
}

/// Turns the frequency mapping into the initial forest: one leaf per entry,
/// each inserted at its sorted position, in mapping order.
pub fn parse_map(map: FreqMap) -> (r: Vec<WeightedEntry>)
    ensures
        r@ == spec_parse_map(map@),
        sorted_by_weight(r@),
{
    let n = map.len();
    let mut acc: Vec<WeightedEntry> = Vec::new();
    let mut i: usize = 0;
    while i < n
        invariant
            n == map@.len(),
            i <= n,
            acc@ == spec_parse_map(map@.take(i as int)),
            sorted_by_weight(acc@),
        decreases n - i,
    {
        let e = map.entry(i);
        let entry = WeightedEntry { tree: Tree::Leaf { ch: e.ch }, weight: e.count };
        let index = get_sorted_index(&acc, &entry.weight);
        proof {
            lemma_lower_bound_props(acc@, entry.weight);
            lemma_forest_insert_sorted(acc@, entry);
        }
        acc.insert(index, entry);
        proof {
            let longer = map@.take(i as int + 1);
            assert(longer.drop_last() =~= map@.take(i as int));
            assert(longer.last() == map@[i as int]);
        }
        i = i + 1;
    }
    proof {
        assert(map@.take(n as int) =~= map@);
    }
    acc
}

} // verus!
