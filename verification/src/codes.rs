//! Deriving the code table from the tree.
//!
//! The traversal walks the tree depth-first with a code accumulator and a bit
//! cursor that starts at one and doubles at each level. Entering a left child
//! keeps the code; entering a right child toggles the bit the cursor held
//! before doubling. Each leaf records the accumulated code for its character.
//! A lone leaf — one distinct character, or the empty-input sentinel — gets
//! code zero.

use vstd::prelude::*;

use vstd::arithmetic::div_mod::{lemma_mod_mod, lemma_mod_multiples_vanish, lemma_small_mod};
use vstd::arithmetic::power2::{
    lemma2_to64, lemma_pow2_pos, lemma_pow2_strictly_increases, lemma_pow2_unfold, pow2,
};
use vstd::bits::lemma_u8_shl_is_mul;

use crate::tree::Tree;

verus! {

/// One line of the code table: a character and its assigned code value.
#[derive(Clone, Copy)]
pub struct CodeEntry {
    pub ch: char,
    pub code: u8,
}

/// The codes assigned below `t` when the walk reaches it carrying `code`,
/// with the cursor bit `cursor`. A later assignment to the same character
/// wins, as in the traversal.
pub open spec fn spec_codes(t: Tree, code: u8, cursor: u8) -> Map<char, u8>
    decreases t,
{
    match t {
        Tree::Leaf { ch } => Map::empty().insert(ch, code),
        Tree::Node { left, right } => spec_codes(*left, code, cursor << 1).union_prefer_right(
            spec_codes(*right, code ^ cursor, cursor << 1),
        ),
    }
}

/// The full code table of a tree: a lone leaf gets code zero; otherwise the
/// traversal starts with code zero and cursor one.
pub open spec fn spec_table(t: Tree) -> Map<char, u8> {
    match t {
        Tree::Leaf { ch } => Map::empty().insert(ch, 0u8),
        Tree::Node { .. } => spec_codes(t, 0u8, 1u8),
    }
}

/// The walk assigns a code to exactly the characters at the leaves.
pub proof fn lemma_spec_codes_dom(t: Tree, code: u8, cursor: u8)
    ensures
        spec_codes(t, code, cursor).dom() == t.leaf_chars(),
    decreases t,
{
    match t {
        Tree::Leaf { ch } => {
            assert(spec_codes(t, code, cursor).dom() =~= t.leaf_chars());
        },
        Tree::Node { left, right } => {
            lemma_spec_codes_dom(*left, code, cursor << 1);
            lemma_spec_codes_dom(*right, code ^ cursor, cursor << 1);
            assert(spec_codes(t, code, cursor).dom() =~= t.leaf_chars());
        },
    }
}

/// The code table covers exactly the characters at the leaves.
pub proof fn lemma_spec_table_dom(t: Tree)
    ensures
        spec_table(t).dom() == t.leaf_chars(),
{
    match t {
        Tree::Leaf { ch } => {
            assert(spec_table(t).dom() =~= t.leaf_chars());
        },
        Tree::Node { .. } => {
            lemma_spec_codes_dom(t, 0u8, 1u8);
        },
    }
}

/// Below a subtree reached with cursor bit `2^k` and a code below `2^k`, every
/// assigned code agrees with the carried code on the low `k` bits, and
/// distinct characters receive distinct codes — the walk only ever sets
/// higher bits, and sets them differently left and right.
proof fn lemma_codes_distinct_rec(t: Tree, code: u8, cursor: u8, k: nat)
    requires
        t.has_distinct_leaves(),
        k + t.height() <= 8,
        cursor as nat == pow2(k) % 256,
        (code as nat) < pow2(k),
    ensures
        forall|ch: char|
            spec_codes(t, code, cursor).dom().contains(ch) ==> (
            #[trigger] spec_codes(t, code, cursor)[ch] as nat) % pow2(k) == code as nat,
        forall|c1: char, c2: char|
            spec_codes(t, code, cursor).dom().contains(c1) && spec_codes(
                t,
                code,
                cursor,
            ).dom().contains(c2) && c1 != c2 ==> spec_codes(t, code, cursor)[c1] != spec_codes(
                t,
                code,
                cursor,
            )[c2],
    decreases t,
{
    lemma_pow2_pos(k);
    match t {
        Tree::Leaf { ch } => {
            lemma_small_mod(code as nat, pow2(k));
        },
        Tree::Node { left, right } => {
            let m = spec_codes(t, code, cursor);
            let kk = k as u8;
            assert(k <= 7);
            assert(pow2(k) <= 128) by {
                if k < 7 {
                    lemma_pow2_strictly_increases(k, 7);
                }
                lemma2_to64();
            }
            lemma_small_mod(pow2(k), 256);
            assert(cursor as nat == pow2(k));
            assert(1u8 << kk == cursor) by {
                lemma_u8_shl_is_mul(1u8, kk);
            }
            lemma_pow2_unfold(k + 1);
            let cursor2 = cursor << 1;
            assert(cursor2 as nat == pow2(k + 1) % 256) by {
                lemma2_to64();
                if k < 7 {
                    lemma_pow2_strictly_increases(k, 7);
                    assert(cursor < 128);
                    assert(cursor < 128 ==> (cursor << 1) == cursor * 2) by (bit_vector);
                    lemma_pow2_strictly_increases(k + 1, 8);
                    lemma_small_mod(pow2(k + 1), 256);
                } else {
                    assert(cursor == 128);
                    assert(cursor == 128 ==> (cursor << 1) == 0) by (bit_vector);
                }
            }
            let coder = code ^ cursor;
            assert(coder == code + cursor) by {
                assert(kk < 8 && cursor == (1u8 << kk) && code < cursor ==> (code ^ cursor) == code
                    + cursor) by (bit_vector);
            }
            assert((code as nat) < pow2(k + 1)) by {
                lemma_pow2_strictly_increases(k, k + 1);
            }
            assert((coder as nat) < pow2(k + 1));
            lemma_codes_distinct_rec(*left, code, cursor2, k + 1);
            lemma_codes_distinct_rec(*right, coder, cursor2, k + 1);
            lemma_spec_codes_dom(*left, code, cursor2);
            lemma_spec_codes_dom(*right, coder, cursor2);
            let lm = spec_codes(*left, code, cursor2);
            let rm = spec_codes(*right, coder, cursor2);
            assert(pow2(k + 1) == pow2(k) * 2);
            assert forall|ch: char| m.dom().contains(ch) implies (#[trigger] m[ch] as nat) % pow2(k)
                == code as nat by {
                if rm.dom().contains(ch) {
                    assert(m[ch] == rm[ch]);
                    assert((rm[ch] as nat) % pow2(k + 1) == coder as nat);
                    lemma_mod_mod(rm[ch] as int, pow2(k) as int, 2);
                    lemma_mod_multiples_vanish(1, code as int, pow2(k) as int);
                    lemma_small_mod(code as nat, pow2(k));
                } else {
                    assert(m[ch] == lm[ch]);
                    assert((lm[ch] as nat) % pow2(k + 1) == code as nat);
                    lemma_mod_mod(lm[ch] as int, pow2(k) as int, 2);
                    lemma_small_mod(code as nat, pow2(k));
                }
            }
            assert forall|c1: char, c2: char|
                m.dom().contains(c1) && m.dom().contains(c2) && c1 != c2 implies m[c1] != m[c2] by {
                if rm.dom().contains(c1) && rm.dom().contains(c2) {
                } else if !rm.dom().contains(c1) && !rm.dom().contains(c2) {
                    assert(m[c1] == lm[c1]);
                    assert(m[c2] == lm[c2]);
                } else {
                    let cl = if rm.dom().contains(c1) {
                        c2
                    } else {
                        c1
                    };
                    let cr = if rm.dom().contains(c1) {
                        c1
                    } else {
                        c2
                    };
                    assert(m[cl] == lm[cl]);
                    assert(m[cr] == rm[cr]);
                    assert((lm[cl] as nat) % pow2(k + 1) == code as nat);
                    assert((rm[cr] as nat) % pow2(k + 1) == coder as nat);
                    assert(code as nat != coder as nat);
                }
            }
        },
    }
}

/// Distinct leaf characters of a tree of height at most eight receive
/// distinct code values: the codes are prefix-free within the 8-bit capacity.
pub proof fn lemma_code_table_injective(t: Tree)
    requires
        t.has_distinct_leaves(),
        t.height() <= 8,
    ensures
        forall|c1: char, c2: char|
            spec_table(t).dom().contains(c1) && spec_table(t).dom().contains(c2) && c1 != c2
                ==> spec_table(t)[c1] != spec_table(t)[c2],
{
    match t {
        Tree::Leaf { ch } => {
        },
        Tree::Node { .. } => {
            lemma2_to64();
            lemma_codes_distinct_rec(t, 0u8, 1u8, 0);
        },
    }
}

/// A mapping from characters to their assigned 8-bit code values.
pub struct CodeTable {
    entries: Vec<CodeEntry>,
}

/// The mapping described by a list of entries, later entries winning.
spec fn map_of(entries: Seq<CodeEntry>) -> Map<char, u8>
    decreases entries.len(),
{
    if entries.len() == 0 {
        Map::empty()
    } else {
        map_of(entries.drop_last()).insert(entries.last().ch, entries.last().code)
    }
}

impl View for CodeTable {
    type V = Map<char, u8>;

    closed spec fn view(&self) -> Map<char, u8> {
        map_of(self.entries@)
    }
}

/// With distinct entry characters, the mapping reads back each entry.
proof fn lemma_map_of_props(entries: Seq<CodeEntry>)
    requires
        forall|i: int, j: int|
            0 <= i < j < entries.len() ==> (#[trigger] entries[i]).ch != (
            #[trigger] entries[j]).ch,
    ensures
        forall|ch: char|
            map_of(entries).dom().contains(ch) <==> exists|i: int|
                0 <= i < entries.len() && (#[trigger] entries[i]).ch == ch,
        forall|i: int|
            0 <= i < entries.len() ==> map_of(entries)[(#[trigger] entries[i]).ch]
                == entries[i].code,
    decreases entries.len(),
{
    if entries.len() > 0 {
        let e0 = entries.drop_last();
        let last = entries.last();
        assert forall|i: int, j: int| 0 <= i < j < e0.len() implies (#[trigger] e0[i]).ch != (
        #[trigger] e0[j]).ch by {
            assert(e0[i] == entries[i]);
            assert(e0[j] == entries[j]);
        }
        lemma_map_of_props(e0);
        assert(map_of(entries) == map_of(e0).insert(last.ch, last.code));
        assert forall|ch: char| map_of(entries).dom().contains(ch) implies exists|i: int|
            0 <= i < entries.len() && (#[trigger] entries[i]).ch == ch by {
            if ch == last.ch {
                assert(entries[entries.len() - 1].ch == ch);
            } else {
                assert(map_of(e0).dom().contains(ch));
                let i = choose|i: int| 0 <= i < e0.len() && (#[trigger] e0[i]).ch == ch;
                assert(entries[i] == e0[i]);
                assert(entries[i].ch == ch);
            }
        }
        assert forall|ch: char|
            (exists|i: int|
                0 <= i < entries.len() && (#[trigger] entries[i]).ch == ch) implies map_of(
            entries,
        ).dom().contains(ch) by {
            let i = choose|i: int| 0 <= i < entries.len() && (#[trigger] entries[i]).ch == ch;
            if i < entries.len() - 1 {
                assert(e0[i].ch == ch);
                assert(map_of(e0).dom().contains(ch));
            }
        }
        assert forall|i: int|
            0 <= i < entries.len() implies map_of(entries)[(#[trigger] entries[i]).ch]
            == entries[i].code by {
            if i < entries.len() - 1 {
                assert(e0[i] == entries[i]);
                assert(entries[i].ch != last.ch);
            }
        }
    }
}

impl CodeTable {
    /// Entry characters are distinct, so each read is unambiguous.
    pub closed spec fn wf(self) -> bool {
        forall|i: int, j: int|
            0 <= i < j < self.entries@.len() ==> (#[trigger] self.entries@[i]).ch != (
            #[trigger] self.entries@[j]).ch
    }

    /// An empty table.
    pub fn new() -> (r: CodeTable)
        ensures
            r.wf(),
            r@ == Map::<char, u8>::empty(),
    {
        CodeTable { entries: Vec::new() }
    }

    /// Records `code` for `ch`, replacing an earlier record if one exists.
    pub fn insert(&mut self, ch: char, code: u8)
        requires
            old(self).wf(),
        ensures
            final(self).wf(),
            final(self)@ == old(self)@.insert(ch, code),
    {
        let ghost before = self.entries@;
        let n = self.entries.len();
        let mut k: usize = 0;
        while k < n && self.entries[k].ch != ch
            invariant
                n == self.entries@.len(),
                k <= n,
                self.entries@ == before,
                forall|m: int| 0 <= m < k ==> (#[trigger] self.entries@[m]).ch != ch,
            decreases n - k,
        {
            k = k + 1;
        }
        if k < n {
            self.entries[k] = CodeEntry { ch, code };
            proof {
                lemma_map_of_update(before, k as int, CodeEntry { ch, code });
            }
        } else {
            self.entries.push(CodeEntry { ch, code });
            proof {
                assert(self.entries@.drop_last() =~= before);
            }
        }
    }

    /// The code recorded for `ch`, if any.
    pub fn get(&self, ch: &char) -> (r: Option<u8>)
        requires
            self.wf(),
        ensures
            r == (if self@.dom().contains(*ch) {
                Some(self@[*ch])
            } else {
                None
            }),
    {
        proof {
            lemma_map_of_props(self.entries@);
        }
        let n = self.entries.len();
        let mut k: usize = 0;
        while k < n && self.entries[k].ch != *ch
            invariant
                n == self.entries@.len(),
                k <= n,
                forall|m: int| 0 <= m < k ==> (#[trigger] self.entries@[m]).ch != *ch,
            decreases n - k,
        {
            k = k + 1;
        }
        if k < n {
            Some(self.entries[k].code)
        } else {
            proof {
                if self@.dom().contains(*ch) {
                    let i = choose|i: int|
                        0 <= i < self.entries@.len() && (#[trigger] self.entries@[i]).ch == *ch;
                }
            }
            None
        }
    }
}

/// Overwriting the entry that carries `e.ch` updates the mapping at that key.
proof fn lemma_map_of_update(entries: Seq<CodeEntry>, k: int, e: CodeEntry)
    requires
        forall|i: int, j: int|
            0 <= i < j < entries.len() ==> (#[trigger] entries[i]).ch != (
            #[trigger] entries[j]).ch,
        0 <= k < entries.len(),
        entries[k].ch == e.ch,
    ensures
        map_of(entries.update(k, e)) == map_of(entries).insert(e.ch, e.code),
    decreases entries.len(),
{
    let u = entries.update(k, e);
    let e0 = entries.drop_last();
    if k == entries.len() - 1 {
        assert(u.drop_last() =~= e0);
        assert(u.last() == e);
        assert(map_of(u) == map_of(e0).insert(e.ch, e.code));
        assert(map_of(entries).insert(e.ch, e.code) =~= map_of(e0).insert(e.ch, e.code));
    } else {
        let last = entries.last();
        assert(u.drop_last() =~= e0.update(k, e));
        assert(u.last() == last);
        assert forall|i: int, j: int| 0 <= i < j < e0.len() implies (#[trigger] e0[i]).ch != (
        #[trigger] e0[j]).ch by {
            assert(e0[i] == entries[i]);
            assert(e0[j] == entries[j]);
        }
        assert(e0[k] == entries[k]);
        lemma_map_of_update(e0, k, e);
        assert(last.ch != e.ch) by {
            assert(entries[k].ch != entries[entries.len() - 1].ch);
        }
        assert(map_of(u) == map_of(e0).insert(e.ch, e.code).insert(last.ch, last.code));
        assert(map_of(e0).insert(e.ch, e.code).insert(last.ch, last.code) =~= map_of(e0).insert(
            last.ch,
            last.code,
        ).insert(e.ch, e.code));
    }
}

/// Walks the tree depth-first and records a code for every leaf: left keeps
/// the code, right toggles the cursor bit, and the cursor doubles per level.
pub fn dfs(tree: &Tree, result: &mut CodeTable, code: u8, depth: u8)
    requires
        old(result).wf(),
    ensures
        final(result).wf(),
        final(result)@ == old(result)@.union_prefer_right(spec_codes(*tree, code, depth)),
    decreases *tree,
{
    match tree {
        Tree::Leaf { ch } => {
            result.insert(*ch, code);
            proof {
                assert(final(result)@ =~= old(result)@.union_prefer_right(
                    spec_codes(*tree, code, depth),
                ));
            }
        },
        Tree::Node { left, right } => {
            let ghost start = result@;
            dfs(&**left, result, code, depth << 1);
            dfs(&**right, result, code ^ depth, depth << 1);
            proof {
                assert(final(result)@ =~= start.union_prefer_right(
                    spec_codes(*tree, code, depth),
                ));
            }
        },
    }
}

/// Produces the code table of a tree: code zero for a lone leaf, and
/// otherwise the depth-first assignment starting with code zero and cursor
/// one.
pub fn get_char_encoding(tree: Tree) -> (r: CodeTable)
    ensures
        r.wf(),
        r@ == spec_table(tree),
{
    let mut result = CodeTable::new();
    let code: u8 = 0b0000_0000;
    match &tree {
        Tree::Leaf { ch } => {
            result.insert(*ch, code);
        },
        _ => {
            dfs(&tree, &mut result, code, 0b0000_0001);
            proof {
                assert(result@ =~= spec_codes(tree, 0u8, 1u8));
            }
        },
    }
    result
}

} // verus!
