//! Counting character occurrences: the first stage of the coder.
//!
//! The frequency mapping is kept as a vector of character/count entries in
//! first-occurrence order, so that building it, reading it and iterating over
//! it are all deterministic. `freq_table_of` says exactly which sequence of
//! entries is the frequency mapping of a text, and pins it uniquely.

use vstd::prelude::*;

verus! {

/// One line of the frequency mapping: a character and its occurrence count.
#[derive(Clone, Copy)]
pub struct FreqEntry {
    pub ch: char,
    pub count: usize,
}

/// How often `ch` occurs in `text`.
pub open spec fn count_of(text: Seq<char>, ch: char) -> nat
    decreases text.len(),
{
    if text.len() == 0 {
        0
    } else {
        count_of(text.drop_last(), ch) + if text.last() == ch {
            1nat
        } else {
            0nat
        }
    }
}

/// The position of the first occurrence of `ch` in `text`; the length of
/// `text` if it does not occur.
pub open spec fn first_occ(text: Seq<char>, ch: char) -> int
    decreases text.len(),
{
    if text.len() == 0 {
        0
    } else if text[0] == ch {
        0
    } else {
        1 + first_occ(text.subrange(1, text.len() as int), ch)
    }
}

/// No two entries share their character.
pub open spec fn distinct_keys(entries: Seq<FreqEntry>) -> bool {
    forall|i: int, j: int|
        0 <= i < j < entries.len() ==> (#[trigger] entries[i]).ch != (#[trigger] entries[j]).ch
}

/// Some entry carries the character `ch`.
pub open spec fn freq_has_key(entries: Seq<FreqEntry>, ch: char) -> bool {
    exists|i: int| 0 <= i < entries.len() && (#[trigger] entries[i]).ch == ch
}

/// The count stored for `ch`, scanning from the front.
pub open spec fn freq_lookup(entries: Seq<FreqEntry>, ch: char) -> Option<usize>
    decreases entries.len(),
{
    if entries.len() == 0 {
        None
    } else if entries[0].ch == ch {
        Some(entries[0].count)
    } else {
        freq_lookup(entries.subrange(1, entries.len() as int), ch)
    }
}

/// `entries` is the frequency mapping of `text`: one entry per character of
/// the text, in first-occurrence order, carrying its occurrence count. Exactly
/// one sequence satisfies this for a given text.
pub open spec fn freq_table_of(entries: Seq<FreqEntry>, text: Seq<char>) -> bool {
    &&& distinct_keys(entries)
    &&& forall|i: int|
        0 <= i < entries.len() ==> (#[trigger] entries[i]).count == count_of(text, entries[i].ch)
    &&& forall|i: int| 0 <= i < entries.len() ==> text.contains((#[trigger] entries[i]).ch)
    &&& forall|ch: char| text.contains(ch) ==> freq_has_key(entries, ch)
    &&& forall|i: int, j: int|
        0 <= i < j < entries.len() ==> first_occ(text, (#[trigger] entries[i]).ch) < first_occ(
            text,
            (#[trigger] entries[j]).ch,
        )
}

/// The total of all stored counts.
pub open spec fn sum_counts(entries: Seq<FreqEntry>) -> int
    decreases entries.len(),
{
    if entries.len() == 0 {
        0
    } else {
        sum_counts(entries.drop_last()) + entries.last().count
    }
}

/// A character cannot occur more often than the text is long.
pub proof fn lemma_count_le_len(text: Seq<char>, ch: char)
    ensures
        count_of(text, ch) <= text.len(),
    decreases text.len(),
{
    if text.len() > 0 {
        lemma_count_le_len(text.drop_last(), ch);
    }
}

/// A character absent from the text has count zero, and conversely.
pub proof fn lemma_count_zero_iff_absent(text: Seq<char>, ch: char)
    ensures
        count_of(text, ch) == 0 <==> !text.contains(ch),
    decreases text.len(),
{
    if text.len() == 0 {
        if text.contains(ch) {
            let i = choose|i: int| 0 <= i < text.len() && text[i] == ch;
        }
    } else {
        let t0 = text.drop_last();
        lemma_count_zero_iff_absent(t0, ch);
        if text.last() == ch {
            assert(text[text.len() - 1] == ch);
        } else {
            if t0.contains(ch) {
                let i = choose|i: int| 0 <= i < t0.len() && t0[i] == ch;
                assert(text[i] == ch);
            }
            if text.contains(ch) {
                let i = choose|i: int| 0 <= i < text.len() && text[i] == ch;
                assert(i < text.len() - 1);
                assert(t0[i] == ch);
            }
        }
    }
}

/// Appending one character raises its count by one and no other.
pub proof fn lemma_count_push(text: Seq<char>, c: char, ch: char)
    ensures
        count_of(text.push(c), ch) == count_of(text, ch) + if ch == c {
            1int
        } else {
            0int
        },
{
    let t1 = text.push(c);
    assert(t1.drop_last() =~= text);
    assert(t1.last() == c);
}

/// Appending a character keeps the old ones and adds the new.
pub proof fn lemma_contains_push(text: Seq<char>, c: char, ch: char)
    ensures
        text.push(c).contains(ch) <==> text.contains(ch) || ch == c,
{
    let t1 = text.push(c);
    if text.contains(ch) {
        let i = choose|i: int| 0 <= i < text.len() && text[i] == ch;
        assert(t1[i] == ch);
    }
    if ch == c {
        assert(t1[text.len() as int] == ch);
    }
    if t1.contains(ch) && ch != c {
        let i = choose|i: int| 0 <= i < t1.len() && t1[i] == ch;
        assert(i < text.len());
        assert(text[i] == ch);
    }
}

/// Where the first occurrence lies: at a position carrying the character,
/// with none before it; at the end if the character is absent.
pub proof fn lemma_first_occ_props(text: Seq<char>, ch: char)
    ensures
        text.contains(ch) ==> 0 <= first_occ(text, ch) < text.len() && text[first_occ(text, ch)]
            == ch,
        text.contains(ch) ==> forall|m: int| 0 <= m < first_occ(text, ch) ==> text[m] != ch,
        !text.contains(ch) ==> first_occ(text, ch) == text.len(),
    decreases text.len(),
{
    if text.len() == 0 {
        if text.contains(ch) {
            let i = choose|i: int| 0 <= i < text.len() && text[i] == ch;
        }
    } else if text[0] == ch {
        assert(text.contains(ch));
    } else {
        let tail = text.subrange(1, text.len() as int);
        lemma_first_occ_props(tail, ch);
        if text.contains(ch) {
            let i = choose|i: int| 0 <= i < text.len() && text[i] == ch;
            assert(i > 0);
            assert(tail[i - 1] == ch);
            assert(tail.contains(ch));
            assert(text[first_occ(text, ch)] == tail[first_occ(tail, ch)]);
            assert forall|m: int| 0 <= m < first_occ(text, ch) implies text[m] != ch by {
                if m > 0 {
                    assert(tail[m - 1] != ch);
                }
            }
        } else {
            if tail.contains(ch) {
                let i = choose|i: int| 0 <= i < tail.len() && tail[i] == ch;
                assert(text[i + 1] == ch);
            }
        }
    }
}

/// A position carrying the character, with none before it, is the first
/// occurrence.
pub proof fn lemma_first_occ_unique(text: Seq<char>, ch: char, i: int)
    requires
        0 <= i < text.len(),
        text[i] == ch,
        forall|m: int| 0 <= m < i ==> text[m] != ch,
    ensures
        first_occ(text, ch) == i,
{
    assert(text.contains(ch));
    lemma_first_occ_props(text, ch);
    let f = first_occ(text, ch);
    if f < i {
        assert(text[f] != ch);
    }
    if f > i {
        assert(text[i] != ch);
    }
}

/// Appending a character does not move any first occurrence, and gives a
/// fresh character the last position as its first.
pub proof fn lemma_first_occ_push(text: Seq<char>, c: char, ch: char)
    ensures
        text.contains(ch) ==> first_occ(text.push(c), ch) == first_occ(text, ch),
        !text.contains(ch) && ch == c ==> first_occ(text.push(c), ch) == text.len(),
{
    let t1 = text.push(c);
    lemma_first_occ_props(text, ch);
    lemma_contains_push(text, c, ch);
    if text.contains(ch) {
        let f = first_occ(text, ch);
        assert(t1[f] == ch);
        assert forall|m: int| 0 <= m < f implies t1[m] != ch by {
            assert(t1[m] == text[m]);
        }
        lemma_first_occ_unique(t1, ch, f);
    } else if ch == c {
        assert(t1[text.len() as int] == ch);
        assert forall|m: int| 0 <= m < text.len() implies t1[m] != ch by {
            assert(t1[m] == text[m]);
        }
        lemma_first_occ_unique(t1, ch, text.len() as int);
    }
}

/// One more occurrence of a character already counted: updating its entry
/// yields the frequency mapping of the longer text.
pub proof fn lemma_freq_table_update(entries: Seq<FreqEntry>, text: Seq<char>, c: char, k: int)
    requires
        freq_table_of(entries, text),
        0 <= k < entries.len(),
        entries[k].ch == c,
        entries[k].count < usize::MAX,
    ensures
        freq_table_of(
            entries.update(k, FreqEntry { ch: c, count: (entries[k].count + 1) as usize }),
            text.push(c),
        ),
{
    let t1 = text.push(c);
    let e1 = entries.update(k, FreqEntry { ch: c, count: (entries[k].count + 1) as usize });
    assert forall|i: int|
        0 <= i < e1.len() implies (#[trigger] e1[i]).count == count_of(t1, e1[i].ch) by {
        lemma_count_push(text, c, e1[i].ch);
        if i == k {
        } else {
            assert(e1[i] == entries[i]);
            assert(entries[i].ch != c);
        }
    }
    assert forall|i: int| 0 <= i < e1.len() implies t1.contains((#[trigger] e1[i]).ch) by {
        lemma_contains_push(text, c, e1[i].ch);
        if i != k {
            assert(e1[i] == entries[i]);
        }
    }
    assert forall|ch: char| t1.contains(ch) implies freq_has_key(e1, ch) by {
        lemma_contains_push(text, c, ch);
        if text.contains(ch) {
            let x = choose|x: int| 0 <= x < entries.len() && (#[trigger] entries[x]).ch == ch;
            assert(e1[x].ch == ch);
        } else {
            assert(e1[k].ch == ch);
        }
    }
    assert forall|i: int, j: int|
        0 <= i < j < e1.len() implies first_occ(t1, (#[trigger] e1[i]).ch) < first_occ(
        t1,
        (#[trigger] e1[j]).ch,
    ) by {
        assert(e1[i].ch == entries[i].ch);
        assert(e1[j].ch == entries[j].ch);
        lemma_first_occ_push(text, c, entries[i].ch);
        lemma_first_occ_push(text, c, entries[j].ch);
    }
    assert forall|i: int, j: int| 0 <= i < j < e1.len() implies (#[trigger] e1[i]).ch
        != (#[trigger] e1[j]).ch by {
        assert(e1[i].ch == entries[i].ch);
        assert(e1[j].ch == entries[j].ch);
    }
}

/// The first occurrence of a new character: appending its entry with count one
/// yields the frequency mapping of the longer text.
pub proof fn lemma_freq_table_push(entries: Seq<FreqEntry>, text: Seq<char>, c: char)
    requires
        freq_table_of(entries, text),
        !freq_has_key(entries, c),
    ensures
        freq_table_of(entries.push(FreqEntry { ch: c, count: 1 }), text.push(c)),
{
    let t1 = text.push(c);
    let e1 = entries.push(FreqEntry { ch: c, count: 1 });
    let n = entries.len() as int;
    assert(!text.contains(c)) by {
        if text.contains(c) {
            assert(freq_has_key(entries, c));
        }
    }
    lemma_count_zero_iff_absent(text, c);
    assert forall|i: int|
        0 <= i < e1.len() implies (#[trigger] e1[i]).count == count_of(t1, e1[i].ch) by {
        lemma_count_push(text, c, e1[i].ch);
        if i < n {
            assert(e1[i] == entries[i]);
            assert(entries[i].ch != c) by {
                if entries[i].ch == c {
                    assert(freq_has_key(entries, c));
                }
            }
        } else {
            assert(e1[i].ch == c);
        }
    }
    assert forall|i: int| 0 <= i < e1.len() implies t1.contains((#[trigger] e1[i]).ch) by {
        lemma_contains_push(text, c, e1[i].ch);
        if i < n {
            assert(e1[i] == entries[i]);
        }
    }
    assert forall|ch: char| t1.contains(ch) implies freq_has_key(e1, ch) by {
        lemma_contains_push(text, c, ch);
        if text.contains(ch) {
            let x = choose|x: int| 0 <= x < entries.len() && (#[trigger] entries[x]).ch == ch;
            assert(e1[x].ch == ch);
        } else {
            assert(e1[n].ch == ch);
        }
    }
    assert forall|i: int, j: int|
        0 <= i < j < e1.len() implies first_occ(t1, (#[trigger] e1[i]).ch) < first_occ(
        t1,
        (#[trigger] e1[j]).ch,
    ) by {
        lemma_first_occ_props(text, e1[i].ch);
        lemma_first_occ_push(text, c, e1[i].ch);
        lemma_first_occ_push(text, c, e1[j].ch);
        if j < n {
            assert(e1[i] == entries[i]);
            assert(e1[j] == entries[j]);
        } else {
            assert(e1[j].ch == c);
            assert(e1[i] == entries[i]);
            assert(text.contains(entries[i].ch));
        }
    }
    assert forall|i: int, j: int| 0 <= i < j < e1.len() implies (#[trigger] e1[i]).ch
        != (#[trigger] e1[j]).ch by {
        if j < n {
            assert(e1[i] == entries[i]);
            assert(e1[j] == entries[j]);
        } else {
            assert(e1[j].ch == c);
            assert(e1[i] == entries[i]);
            if entries[i].ch == c {
                assert(freq_has_key(entries, c));
            }
        }
    }
}

/// Two frequency mappings of one text agree on a common prefix.
proof fn lemma_freq_table_prefix(e1: Seq<FreqEntry>, e2: Seq<FreqEntry>, text: Seq<char>, n: int)
    requires
        freq_table_of(e1, text),
        freq_table_of(e2, text),
        0 <= n <= e1.len(),
        n <= e2.len(),
    ensures
        forall|j: int| 0 <= j < n ==> e1[j] == e2[j],
    decreases n,
{
    if n > 0 {
        lemma_freq_table_prefix(e1, e2, text, n - 1);
        let i = n - 1;
        let c1 = e1[i].ch;
        let c2 = e2[i].ch;
        assert(c1 == c2) by {
            if c1 != c2 {
                assert(text.contains(c1));
                let k = choose|k: int| 0 <= k < e2.len() && (#[trigger] e2[k]).ch == c1;
                if k < i {
                    assert(e1[k] == e2[k]);
                    assert(e1[k].ch == c1);
                    assert(e1[k].ch != e1[i].ch);
                } else {
                    assert(k > i);
                    assert(first_occ(text, e2[i].ch) < first_occ(text, e2[k].ch));
                }
                assert(text.contains(c2));
                let m = choose|m: int| 0 <= m < e1.len() && (#[trigger] e1[m]).ch == c2;
                if m < i {
                    assert(e1[m] == e2[m]);
                    assert(e2[m].ch == c2);
                    assert(e2[m].ch != e2[i].ch);
                } else {
                    assert(m > i);
                    assert(first_occ(text, e1[i].ch) < first_occ(text, e1[m].ch));
                }
            }
        }
        assert(e1[i].count == e2[i].count);
    }
}

/// Only one sequence of entries is the frequency mapping of a given text.
pub proof fn lemma_freq_table_unique(e1: Seq<FreqEntry>, e2: Seq<FreqEntry>, text: Seq<char>)
    requires
        freq_table_of(e1, text),
        freq_table_of(e2, text),
    ensures
        e1 == e2,
{
    let n: int = if e1.len() <= e2.len() {
        e1.len() as int
    } else {
        e2.len() as int
    };
    lemma_freq_table_prefix(e1, e2, text, n);
    if e1.len() < e2.len() {
        let extra = e2[e1.len() as int];
        assert(text.contains(extra.ch));
        let x = choose|x: int| 0 <= x < e1.len() && (#[trigger] e1[x]).ch == extra.ch;
        assert(e2[x].ch == extra.ch);
        assert(e2[x].ch != e2[e1.len() as int].ch);
    }
    if e2.len() < e1.len() {
        let extra = e1[e2.len() as int];
        assert(text.contains(extra.ch));
        let x = choose|x: int| 0 <= x < e2.len() && (#[trigger] e2[x]).ch == extra.ch;
        assert(e1[x].ch == extra.ch);
        assert(e1[x].ch != e1[e2.len() as int].ch);
    }
    assert(e1 =~= e2);
}

/// The characters of the entries, in order.
pub open spec fn keys_of(entries: Seq<FreqEntry>) -> Seq<char> {
    entries.map_values(|e: FreqEntry| e.ch)
}

/// The counts of the listed characters, added up over the text.
spec fn sum_counts_over(keys: Seq<char>, text: Seq<char>) -> int
    decreases keys.len(),
{
    if keys.len() == 0 {
        0
    } else {
        sum_counts_over(keys.drop_last(), text) + count_of(text, keys.last())
    }
}

/// Over the empty text every count is zero.
proof fn lemma_sum_over_empty(keys: Seq<char>, text: Seq<char>)
    requires
        text.len() == 0,
    ensures
        sum_counts_over(keys, text) == 0,
    decreases keys.len(),
{
    if keys.len() > 0 {
        lemma_sum_over_empty(keys.drop_last(), text);
    }
}

/// Appending one character to the text raises the total by one exactly when
/// the character is among the listed keys.
proof fn lemma_sum_over_push(keys: Seq<char>, text: Seq<char>, c: char)
    requires
        forall|i: int, j: int| 0 <= i < j < keys.len() ==> keys[i] != keys[j],
    ensures
        sum_counts_over(keys, text.push(c)) == sum_counts_over(keys, text) + if keys.contains(c) {
            1int
        } else {
            0int
        },
    decreases keys.len(),
{
    if keys.len() == 0 {
        if keys.contains(c) {
            let i = choose|i: int| 0 <= i < keys.len() && keys[i] == c;
        }
    } else {
        let k0 = keys.drop_last();
        let last = keys.last();
        assert forall|i: int, j: int| 0 <= i < j < k0.len() implies k0[i] != k0[j] by {
            assert(k0[i] == keys[i]);
            assert(k0[j] == keys[j]);
        }
        lemma_sum_over_push(k0, text, c);
        lemma_count_push(text, c, last);
        assert(keys.contains(c) <==> (k0.contains(c) || last == c)) by {
            if k0.contains(c) {
                let i = choose|i: int| 0 <= i < k0.len() && k0[i] == c;
                assert(keys[i] == c);
            }
            if last == c {
                assert(keys[keys.len() - 1] == c);
            }
            if keys.contains(c) && last != c {
                let i = choose|i: int| 0 <= i < keys.len() && keys[i] == c;
                assert(i < keys.len() - 1);
                assert(k0[i] == c);
            }
        }
        if last == c {
            assert(!k0.contains(c)) by {
                if k0.contains(c) {
                    let i = choose|i: int| 0 <= i < k0.len() && k0[i] == c;
                    assert(keys[i] == keys[keys.len() - 1]);
                }
            }
        }
    }
}

/// Distinct keys covering every character of the text count it exactly once.
proof fn lemma_sum_over_text(keys: Seq<char>, text: Seq<char>)
    requires
        forall|i: int, j: int| 0 <= i < j < keys.len() ==> keys[i] != keys[j],
        forall|ch: char| text.contains(ch) ==> keys.contains(ch),
    ensures
        sum_counts_over(keys, text) == text.len(),
    decreases text.len(),
{
    if text.len() == 0 {
        lemma_sum_over_empty(keys, text);
    } else {
        let t0 = text.drop_last();
        let c = text.last();
        assert(text =~= t0.push(c));
        assert forall|ch: char| t0.contains(ch) implies keys.contains(ch) by {
            let i = choose|i: int| 0 <= i < t0.len() && t0[i] == ch;
            assert(text[i] == ch);
        }
        lemma_sum_over_text(keys, t0);
        lemma_sum_over_push(keys, t0, c);
        assert(text[text.len() - 1] == c);
        assert(keys.contains(c));
        assert(sum_counts_over(keys, text) == sum_counts_over(keys, t0.push(c)));
    }
}

/// The stored counts add up to the counts of the entries' own characters.
proof fn lemma_sum_counts_pointwise(entries: Seq<FreqEntry>, text: Seq<char>)
    requires
        forall|i: int|
            0 <= i < entries.len() ==> (#[trigger] entries[i]).count == count_of(
                text,
                entries[i].ch,
            ),
    ensures
        sum_counts(entries) == sum_counts_over(keys_of(entries), text),
    decreases entries.len(),
{
    if entries.len() > 0 {
        let e0 = entries.drop_last();
        assert(keys_of(e0) =~= keys_of(entries).drop_last());
        assert forall|i: int|
            0 <= i < e0.len() implies (#[trigger] e0[i]).count == count_of(text, e0[i].ch) by {
            assert(e0[i] == entries[i]);
        }
        lemma_sum_counts_pointwise(e0, text);
        assert(keys_of(entries).last() == entries.last().ch);
        assert(entries[entries.len() - 1].count == count_of(text, entries[entries.len() - 1].ch));
    }
}

/// The counts of a text's frequency mapping add up to the text's length.
pub proof fn lemma_freq_table_sum(entries: Seq<FreqEntry>, text: Seq<char>)
    requires
        freq_table_of(entries, text),
    ensures
        sum_counts(entries) == text.len(),
{
    let keys = keys_of(entries);
    assert forall|i: int, j: int| 0 <= i < j < keys.len() implies keys[i] != keys[j] by {
        assert(entries[i].ch != entries[j].ch);
    }
    assert forall|ch: char| text.contains(ch) implies keys.contains(ch) by {
        let x = choose|x: int| 0 <= x < entries.len() && (#[trigger] entries[x]).ch == ch;
        assert(keys[x] == ch);
    }
    lemma_sum_counts_pointwise(entries, text);
    lemma_sum_over_text(keys, text);
}

/// A mapping from characters to occurrence counts, in first-occurrence order.
pub struct FreqMap {
    entries: Vec<FreqEntry>,
}

impl View for FreqMap {
    type V = Seq<FreqEntry>;

    closed spec fn view(&self) -> Seq<FreqEntry> {
        self.entries@
    }
}

impl FreqMap {
    /// Number of distinct characters recorded.
    pub fn len(&self) -> (n: usize)
        ensures
            n == self@.len(),
    {
        self.entries.len()
    }

    /// Whether nothing has been recorded.
    pub fn is_empty(&self) -> (b: bool)
        ensures
            b == (self@.len() == 0),
    {
        self.entries.len() == 0
    }

    /// The entry stored at position `i`.
    pub fn entry(&self, i: usize) -> (e: FreqEntry)
        requires
            i < self@.len(),
        ensures
            e == self@[i as int],
    {
        self.entries[i]
    }

    /// The count recorded for `ch`, if any.
    pub fn get(&self, ch: &char) -> (r: Option<usize>)
        ensures
            r == freq_lookup(self@, *ch),
    {
        let n = self.entries.len();
        let mut k: usize = 0;
        while k < n && self.entries[k].ch != *ch
            invariant
                n == self@.len(),
                k <= n,
                forall|m: int| 0 <= m < k ==> (#[trigger] self@[m]).ch != *ch,
            decreases n - k,
        {
            k = k + 1;
        }
        proof {
            lemma_lookup_scan(self@, *ch, k as int);
        }
        if k < n {
            proof {
                assert(self@.subrange(k as int, n as int)[0] == self@[k as int]);
            }
            Some(self.entries[k].count)
        } else {
            proof {
                assert(self@.subrange(k as int, n as int) =~= Seq::<FreqEntry>::empty());
            }
            None
        }
    }

    /// Whether a count is recorded for `ch`.
    pub fn contains_key(&self, ch: &char) -> (b: bool)
        ensures
            b == freq_has_key(self@, *ch),
    {
        proof {
            lemma_lookup_some_iff_has_key(self@, *ch);
        }
        self.get(ch).is_some()
    }
}

/// Scanning past entries that do not carry `ch` leaves the lookup unchanged.
proof fn lemma_lookup_scan(entries: Seq<FreqEntry>, ch: char, k: int)
    requires
        0 <= k <= entries.len(),
        forall|m: int| 0 <= m < k ==> (#[trigger] entries[m]).ch != ch,
    ensures
        freq_lookup(entries, ch) == freq_lookup(entries.subrange(k, entries.len() as int), ch),
    decreases k,
{
    if k == 0 {
        assert(entries.subrange(0, entries.len() as int) =~= entries);
    } else {
        let tail = entries.subrange(1, entries.len() as int);
        assert(entries[0].ch != ch);
        assert forall|m: int| 0 <= m < k - 1 implies (#[trigger] tail[m]).ch != ch by {
            assert(tail[m] == entries[m + 1]);
        }
        lemma_lookup_scan(tail, ch, k - 1);
        assert(tail.subrange(k - 1, tail.len() as int) =~= entries.subrange(
            k,
            entries.len() as int,
        ));
    }
}

/// The lookup finds a count exactly when some entry carries the character.
proof fn lemma_lookup_some_iff_has_key(entries: Seq<FreqEntry>, ch: char)
    ensures
        freq_lookup(entries, ch).is_some() <==> freq_has_key(entries, ch),
    decreases entries.len(),
{
    if entries.len() == 0 {
    } else if entries[0].ch == ch {
    } else {
        let tail = entries.subrange(1, entries.len() as int);
        lemma_lookup_some_iff_has_key(tail, ch);
        if freq_has_key(entries, ch) {
            let i = choose|i: int| 0 <= i < entries.len() && (#[trigger] entries[i]).ch == ch;
            assert(i > 0);
            assert(tail[i - 1].ch == ch);
        }
        if freq_has_key(tail, ch) {
            let i = choose|i: int| 0 <= i < tail.len() && (#[trigger] tail[i]).ch == ch;
            assert(entries[i + 1].ch == ch);
        }
    }
}

/// Scans the text and produces its frequency mapping: one entry per distinct
/// character, in order of first occurrence, carrying its occurrence count.
pub fn parse_text(text: &String) -> (r: FreqMap)
    ensures
        freq_table_of(r@, text@),
{
    let s = text.as_str();
    let n = s.unicode_len();
    let mut entries: Vec<FreqEntry> = Vec::new();
    let mut j: usize = 0;
    while j < n
        invariant
            s@ == text@,
            n == text@.len(),
            j <= n,
            freq_table_of(entries@, text@.take(j as int)),
        decreases n - j,
    {
        let ch = s.get_char(j);
        let ghost prefix = text@.take(j as int);
        let ghost before = entries@;
        let elen = entries.len();
        let mut k: usize = 0;
        while k < elen && entries[k].ch != ch
            invariant
                elen == entries@.len(),
                k <= elen,
                forall|m: int| 0 <= m < k ==> (#[trigger] entries@[m]).ch != ch,
            decreases elen - k,
        {
            k = k + 1;
        }
        if k < elen {
            let count = entries[k].count;
            proof {
                assert(before[k as int].count == count_of(prefix, before[k as int].ch));
                lemma_count_le_len(prefix, before[k as int].ch);
                assert(count <= prefix.len());
                lemma_freq_table_update(before, prefix, ch, k as int);
            }
            entries[k] = FreqEntry { ch, count: count + 1 };
        } else {
            proof {
                assert(!freq_has_key(before, ch));
                lemma_freq_table_push(before, prefix, ch);
            }
            entries.push(FreqEntry { ch, count: 1 });
        }
        proof {
            assert(text@.take(j as int + 1) =~= prefix.push(ch));
        }
        j = j + 1;
    }
    proof {
        assert(text@.take(n as int) =~= text@);
    }
    FreqMap { entries }
}

} // verus!
