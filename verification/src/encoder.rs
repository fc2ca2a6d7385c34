//! Mapping the text to its encoded output, and the whole pipeline.
//!
//! The output carries one 8-bit code value per input character, in input
//! order; codes are not packed into a bitstream.

use vstd::prelude::*;

use crate::builder::{get_tree, lemma_merge_leaf_chars, spec_merge};
use crate::codes::{
    get_char_encoding, lemma_spec_table_dom, spec_table, CodeTable,
};
use crate::forest::{
    forest_leaf_chars, lemma_parse_map_leaf_chars, lemma_parse_map_len, lemma_parse_map_sum,
    parse_map, spec_parse_map, sum_weights,
};
use crate::freq::{
    freq_has_key, freq_table_of, lemma_freq_table_sum, lemma_freq_table_unique, parse_text,
    FreqEntry,
};

verus! {

/// The encoded output: the table's code for each character of the text, in
/// text order.
pub open spec fn spec_encode_text(text: Seq<char>, table: Map<char, u8>) -> Seq<u8> {
    Seq::new(text.len(), |i: int| table[text[i]])
}

/// What encoding a text comes to, given its frequency mapping: the codes of
/// the tree merged out of the sorted forest, applied to the text.
pub open spec fn spec_encoded_from(entries: Seq<FreqEntry>, text: Seq<char>) -> Seq<u8> {
    spec_encode_text(text, spec_table(spec_merge(spec_parse_map(entries))))
}

/// Encoding is deterministic: a text has exactly one frequency mapping, so
/// encoding the same text twice yields identical output sequences.
pub proof fn lemma_encode_deterministic(e1: Seq<FreqEntry>, e2: Seq<FreqEntry>, text: Seq<char>)
    requires
        freq_table_of(e1, text),
        freq_table_of(e2, text),
    ensures
        spec_encoded_from(e1, text) == spec_encoded_from(e2, text),
{
    lemma_freq_table_unique(e1, e2, text);
}

/// Replaces each character of the text by its code from the table. Every
/// character of the text must have an entry; the table built from the same
/// text always covers them.
pub fn encode_text(text: &String, char_encoding: CodeTable) -> (r: Vec<u8>)
    requires
        char_encoding.wf(),
        forall|i: int| 0 <= i < text@.len() ==> char_encoding@.dom().contains(#[trigger] text@[i]),
    ensures
        r@ == spec_encode_text(text@, char_encoding@),
{
    let s = text.as_str();
    let n = s.unicode_len();
    let mut acc: Vec<u8> = Vec::new();
    let mut j: usize = 0;
    while j < n
        invariant
            char_encoding.wf(),
            forall|i: int|
                0 <= i < text@.len() ==> char_encoding@.dom().contains(#[trigger] text@[i]),
            s@ == text@,
            n == text@.len(),
            j <= n,
            acc@.len() == j,
            forall|m: int| 0 <= m < j ==> acc@[m] == char_encoding@[text@[m]],
        decreases n - j,
    {
        let ch = s.get_char(j);
        let code = char_encoding.get(&ch).unwrap();
        acc.push(code);
        j = j + 1;
    }
    proof {
        assert(acc@ =~= spec_encode_text(text@, char_encoding@));
    }
    acc
}

/// Runs the whole pipeline on a text: counts frequencies, builds the sorted
/// forest, merges it into one tree, derives the code table, and encodes the
/// text — one code value per input character, the empty text giving empty
/// output.
pub fn encode_string(text: &String) -> (r: Vec<u8>)
    ensures
        forall|entries: Seq<FreqEntry>|
            freq_table_of(entries, text@) ==> r@ == spec_encoded_from(entries, text@),
{
    let n = text.as_str().unicode_len();
    let map = parse_text(text);
    let ghost entries = map@;
    let sorted = parse_map(map);
    proof {
        lemma_freq_table_sum(entries, text@);
        lemma_parse_map_sum(entries);
        assert(sum_weights(sorted@) == n);
    }
    let tree = get_tree(sorted);
    let ghost t = tree;
    let char_encoding = get_char_encoding(tree);
    proof {
        lemma_parse_map_len(entries);
        lemma_parse_map_leaf_chars(entries);
        lemma_spec_table_dom(t);
        assert forall|i: int|
            0 <= i < text@.len() implies char_encoding@.dom().contains(#[trigger] text@[i]) by {
            assert(text@.contains(text@[i]));
            assert(freq_has_key(entries, text@[i]));
            let x = choose|x: int| 0 <= x < entries.len() && (#[trigger] entries[x]).ch == text@[i];
            let c = entries[x].ch;
            assert(entries.len() >= 1);
            lemma_merge_leaf_chars(spec_parse_map(entries));
            assert(forest_leaf_chars(spec_parse_map(entries)).contains(c));
            assert(char_encoding@.dom().contains(c));
        }
    }
    let contents = encode_text(text, char_encoding);
    proof {
        assert forall|e2: Seq<FreqEntry>| freq_table_of(e2, text@) implies contents@
            == spec_encoded_from(e2, text@) by {
            lemma_freq_table_unique(e2, entries, text@);
        }
    }
    contents
}

} // verus!
