//! Frequency vocabulary over byte-string words: a dense entry sequence,
//! an open-addressed hash index (linear probing, no tombstones, rebuilt
//! from scratch after pruning), and a weighted unigram sampling table.
//!
//! The entry at position 0 of a learned vocabulary is always the
//! sentence sentinel `"</s>"`.

use crate::tokenizer::{tokens_of, Token, TokenIterator, TokenView};
use vstd::prelude::*;

verus! {

/// The sentence sentinel word, `"</s>"`.
pub open spec fn sentinel_bytes() -> Seq<u8> {
    seq![60u8, 47u8, 115u8, 62u8]
}

/// The token stream contains `w` as a word.
pub open spec fn stream_has_word(toks: Seq<TokenView>, w: Seq<u8>) -> bool {
    exists|k: int| 0 <= k < toks.len() && #[trigger] toks[k] == TokenView::Word(w)
}

/// The word a token is counted under: a word token counts as its own
/// bytes, a sentence end as the sentinel word.
pub open spec fn token_word(t: TokenView) -> Seq<u8> {
    match t {
        TokenView::Word(w) => w,
        TokenView::End => sentinel_bytes(),
    }
}

/// How many of the first `k` tokens count as word `w`.
pub open spec fn occurrences(toks: Seq<TokenView>, w: Seq<u8>, k: int) -> int
    decreases k,
{
    if k <= 0 {
        0
    } else {
        occurrences(toks, w, k - 1) + (if token_word(toks[k - 1]) == w {
            1int
        } else {
            0int
        })
    }
}

proof fn lemma_occurrences_nonneg(toks: Seq<TokenView>, w: Seq<u8>, k: int)
    ensures
        occurrences(toks, w, k) >= 0,
    decreases k,
{
    if k > 0 {
        lemma_occurrences_nonneg(toks, w, k - 1);
    }
}

/// The position of the first token counted as `w`, scanning from `k`;
/// the stream's length where there is none.
pub open spec fn first_occurrence_from(toks: Seq<TokenView>, w: Seq<u8>, k: int) -> int
    decreases toks.len() - k,
{
    if k < 0 || k >= toks.len() {
        toks.len() as int
    } else if token_word(toks[k]) == w {
        k
    } else {
        first_occurrence_from(toks, w, k + 1)
    }
}

/// The position of the first token counted as `w`.
pub open spec fn first_occurrence(toks: Seq<TokenView>, w: Seq<u8>) -> int {
    first_occurrence_from(toks, w, 0)
}

/// A word without occurrences among the first `k` tokens matches none
/// of them.
proof fn lemma_occ_zero_before(toks: Seq<TokenView>, w: Seq<u8>, k: int)
    requires
        occurrences(toks, w, k) == 0,
    ensures
        forall|j: int| 0 <= j < k ==> token_word(#[trigger] toks[j]) != w,
    decreases k,
{
    if k > 0 {
        lemma_occurrences_nonneg(toks, w, k - 1);
        lemma_occ_zero_before(toks, w, k - 1);
    }
}

/// A word with an occurrence among the first `k` tokens matches one.
proof fn lemma_occ_pos_before(toks: Seq<TokenView>, w: Seq<u8>, k: int)
    requires
        occurrences(toks, w, k) >= 1,
        k <= toks.len(),
    ensures
        exists|j: int| 0 <= j < k && token_word(#[trigger] toks[j]) == w,
    decreases k,
{
    if k > 0 && token_word(toks[k - 1]) != w {
        lemma_occ_pos_before(toks, w, k - 1);
    }
}

/// Where the first match is known, `first_occurrence` returns it.
proof fn lemma_first_occ_exact(toks: Seq<TokenView>, w: Seq<u8>, k: int, p: int)
    requires
        0 <= k <= p < toks.len(),
        token_word(toks[p]) == w,
        forall|j: int| k <= j < p ==> token_word(#[trigger] toks[j]) != w,
    ensures
        first_occurrence_from(toks, w, k) == p,
    decreases p - k,
{
    if k < p {
        lemma_first_occ_exact(toks, w, k + 1, p);
    }
}

/// The first occurrence comes no later than any match.
proof fn lemma_first_occ_le_match(toks: Seq<TokenView>, w: Seq<u8>, k: int, p: int)
    requires
        0 <= k <= p < toks.len(),
        token_word(toks[p]) == w,
    ensures
        first_occurrence_from(toks, w, k) <= p,
    decreases p - k,
{
    if k < p && token_word(toks[k]) != w {
        lemma_first_occ_le_match(toks, w, k + 1, p);
    }
}

/// A count kept in 32 bits: the total, saturated at the top.
pub open spec fn clamp_count(n: int) -> u32 {
    if n > u32::MAX {
        u32::MAX
    } else {
        n as u32
    }
}

/// One more observation moves a clamped total up by one.
proof fn lemma_sat_inc_clamp(x: int)
    requires
        x >= 0,
    ensures
        sat_inc(clamp_count(x)) == clamp_count(x + 1),
{
}

/// What a vocabulary entry counts for word `w` of stream `toks`: every
/// token counting as `w`, plus the one synthetic insertion the sentinel
/// receives before the scan.
pub open spec fn expected_count(toks: Seq<TokenView>, w: Seq<u8>, k: int) -> u32 {
    clamp_count(
        occurrences(toks, w, k) + (if w == sentinel_bytes() {
            1int
        } else {
            0int
        }),
    )
}

/// The summed exact occurrence totals of the entries' words over the
/// first `k` tokens.
pub open spec fn sum_expected(toks: Seq<TokenView>, es: Seq<(Seq<u8>, u32)>, k: int) -> int
    decreases es.len(),
{
    if es.len() == 0 {
        0
    } else {
        sum_expected(toks, es.drop_last(), k) + expected_count(toks, es.last().0, k)
    }
}

/// Where every entry's count is its exact occurrence total, the summed
/// counts are the summed totals.
proof fn lemma_sum_counts_matches_expected(toks: Seq<TokenView>, es: Seq<(Seq<u8>, u32)>, k: int)
    requires
        forall|i: int|
            0 <= i < es.len() ==> (#[trigger] es[i]).1 == expected_count(toks, es[i].0, k),
    ensures
        sum_counts(es) == sum_expected(toks, es, k),
    decreases es.len(),
{
    if es.len() > 0 {
        assert(forall|i: int| 0 <= i < es.len() - 1 ==> #[trigger] es.drop_last()[i] == es[i]);
        lemma_sum_counts_matches_expected(toks, es.drop_last(), k);
        assert(es.last().1 == expected_count(toks, es.last().0, k));
    }
}

/// The distinct words a token stream counts under, the sentinel always
/// among them (a scan inserts it before reading any token).
pub open spec fn token_words(toks: Seq<TokenView>) -> Set<Seq<u8>> {
    toks.map_values(|t: TokenView| token_word(t)).to_set().insert(sentinel_bytes())
}

/// Pairwise distinct values drawn from a finite set cannot outnumber it.
proof fn lemma_distinct_le_card(ws: Seq<Seq<u8>>, s: Set<Seq<u8>>)
    requires
        s.finite(),
        ws.no_duplicates(),
        forall|a: int| 0 <= a < ws.len() ==> s.contains(#[trigger] ws[a]),
    ensures
        ws.len() <= s.len(),
{
    broadcast use vstd::set::group_set_axioms;

    ws.unique_seq_to_set();
    assert(ws.to_set().subset_of(s)) by {
        assert forall|x: Seq<u8>| ws.to_set().contains(x) implies s.contains(x) by {
            let a = choose|a: int| 0 <= a < ws.len() && ws[a] == x;
            assert(s.contains(ws[a]));
        }
    }
    vstd::set_lib::lemma_len_subset(ws.to_set(), s);
}

/// The sentence sentinel word, `"</s>"`, as bytes.
fn make_sentinel() -> (r: Vec<u8>)
    ensures
        r@ == sentinel_bytes(),
{
    let mut v: Vec<u8> = Vec::new();
    v.push(60);
    v.push(47);
    v.push(115);
    v.push(62);
    proof {
        assert(v@ =~= sentinel_bytes());
    }
    v
}

/// Fixed capacity of the open-addressed hash index. The classic
/// embedding tools size this in the tens of millions; one million slots
/// keeps the same design (fixed capacity, pruning at 70%) at a scale
/// where building a vocabulary costs megabytes rather than hundreds of
/// them. Deliberate: raise it for corpora with more distinct words.
pub const VOCAB_HASH_TABLE_SIZE: usize = 1_000_000;

/// Pruning threshold: 70% of the hash index capacity. A learn pass never
/// retains more distinct words than this.
pub const VOCAB_MAX_WORDS: usize = 700_000;

/// One vocabulary entry: a word and how often it was counted.
pub struct WordEntry {
    pub word: Vec<u8>,
    pub count: u32,
}

/// The mathematical shape of an entry: the word's bytes and its count.
spec fn entry_view(e: WordEntry) -> (Seq<u8>, u32) {
    (e.word@, e.count)
}

spec fn entries_view(ws: Seq<WordEntry>) -> Seq<(Seq<u8>, u32)> {
    ws.map_values(|e: WordEntry| entry_view(e))
}

/// The words a vocabulary may hold: nonempty, free of the two bytes that
/// structure the vocabulary file (space and newline), counted at least
/// once each, and pairwise distinct.
spec fn words_wf(es: Seq<(Seq<u8>, u32)>) -> bool {
    &&& forall|i: int, j: int|
        0 <= i < j < es.len() ==> (#[trigger] es[i]).0 != (#[trigger] es[j]).0
    &&& forall|i: int|
        0 <= i < es.len() ==> {
            &&& (#[trigger] es[i]).0.len() >= 1
            &&& es[i].1 >= 1
            &&& forall|k: int| 0 <= k < es[i].0.len() ==> (#[trigger] es[i].0[k]) != 32 && es[i].0[k] != 10
        }
}

/// The rolling hash of a word, reduced into the table's index space.
pub open spec fn word_hash(w: Seq<u8>) -> int
    decreases w.len(),
{
    if w.len() == 0 {
        0
    } else {
        (word_hash(w.drop_last()) * 257 + w.last()) % (VOCAB_HASH_TABLE_SIZE as int)
    }
}

proof fn lemma_word_hash_range(w: Seq<u8>)
    ensures
        0 <= word_hash(w) < VOCAB_HASH_TABLE_SIZE,
    decreases w.len(),
{
    if w.len() > 0 {
        lemma_word_hash_range(w.drop_last());
        let x = word_hash(w.drop_last()) * 257 + w.last();
        assert(x >= 0);
        vstd::arithmetic::div_mod::lemma_mod_division_less_than_divisor(
            x,
            VOCAB_HASH_TABLE_SIZE as int,
        );
    }
}

/// The table slot probed `off` steps after home slot `h`, wrapping once.
spec fn slot(h: int, off: int) -> int {
    if h + off < VOCAB_HASH_TABLE_SIZE as int {
        h + off
    } else {
        h + off - VOCAB_HASH_TABLE_SIZE as int
    }
}

/// How many table slots are occupied (not `-1`).
spec fn occupied_count(t: Seq<i32>) -> int
    decreases t.len(),
{
    if t.len() == 0 {
        0
    } else {
        occupied_count(t.drop_last()) + (if t.last() == -1 {
            0int
        } else {
            1int
        })
    }
}

proof fn lemma_occ_all_free(t: Seq<i32>)
    requires
        forall|s: int| 0 <= s < t.len() ==> #[trigger] t[s] == -1,
    ensures
        occupied_count(t) == 0,
    decreases t.len(),
{
    if t.len() > 0 {
        lemma_occ_all_free(t.drop_last());
    }
}

proof fn lemma_occ_update(t: Seq<i32>, s: int, v: i32)
    requires
        0 <= s < t.len(),
        t[s] == -1,
        v != -1,
    ensures
        occupied_count(t.update(s, v)) == occupied_count(t) + 1,
    decreases t.len(),
{
    if s == t.len() - 1 {
        assert(t.update(s, v).drop_last() =~= t.drop_last());
    } else {
        assert(t.update(s, v).drop_last() =~= t.drop_last().update(s, v));
        lemma_occ_update(t.drop_last(), s, v);
    }
}

proof fn lemma_occ_full(t: Seq<i32>)
    requires
        forall|s: int| 0 <= s < t.len() ==> #[trigger] t[s] != -1,
    ensures
        occupied_count(t) == t.len(),
    decreases t.len(),
{
    if t.len() > 0 {
        lemma_occ_full(t.drop_last());
    }
}

/// Entry `j` can be found from its home slot: it sits `off` probe steps
/// away, with every earlier probe step occupied.
spec fn word_reachable(table: Seq<i32>, ws: Seq<WordEntry>, j: int) -> bool {
    exists|off: int|
        {
            &&& 0 <= off < VOCAB_HASH_TABLE_SIZE as int
            &&& #[trigger] table[slot(word_hash(ws[j].word@), off)] == j
            &&& forall|o2: int|
                0 <= o2 < off ==> table[slot(word_hash(ws[j].word@), #[trigger] (o2 + 0))] != -1
        }
}

/// The hash index is consistent with the first `m` entries: slots hold
/// `-1` or an entry index below `m`, no index twice, exactly `m` slots
/// occupied, and every indexed entry is reachable by probing.
spec fn table_partial(table: Seq<i32>, ws: Seq<WordEntry>, m: int) -> bool {
    &&& table.len() == VOCAB_HASH_TABLE_SIZE as int
    &&& 0 <= m <= ws.len()
    &&& forall|s: int|
        0 <= s < table.len() ==> (#[trigger] table[s] == -1 || (0 <= table[s] < m))
    &&& forall|s1: int, s2: int|
        0 <= s1 < s2 < table.len() && #[trigger] table[s1] != -1 ==> table[s1] != #[trigger] table[s2]
    &&& occupied_count(table) == m
    &&& forall|j: int| 0 <= j < m ==> word_reachable(table, ws, j)
}

/// The hash index is consistent with the whole entry sequence.
spec fn table_wf(table: Seq<i32>, ws: Seq<WordEntry>) -> bool {
    table_partial(table, ws, ws.len() as int)
}

/// Every probe offset, continued far enough, covers every slot.
proof fn lemma_probe_covers(h: int, s: int)
    requires
        0 <= h < VOCAB_HASH_TABLE_SIZE as int,
        0 <= s < VOCAB_HASH_TABLE_SIZE as int,
    ensures
        exists|off: int|
            0 <= off < VOCAB_HASH_TABLE_SIZE as int && #[trigger] slot(h, off) == s,
{
    let off = if s >= h {
        s - h
    } else {
        s + VOCAB_HASH_TABLE_SIZE as int - h
    };
    assert(slot(h, off) == s);
}

/// Compares two byte strings.
fn bytes_eq(a: &Vec<u8>, b: &Vec<u8>) -> (r: bool)
    ensures
        r == (a@ == b@),
{
    if a.len() != b.len() {
        return false;
    }
    let mut i: usize = 0;
    while i < a.len()
        invariant
            i <= a.len(),
            a@.len() == b@.len(),
            forall|k: int| 0 <= k < i ==> a@[k] == b@[k],
        decreases a.len() - i,
    {
        if a[i] != b[i] {
            return false;
        }
        i = i + 1;
    }
    assert(a@ =~= b@);
    true
}

/// The rolling hash of a word, as the index of its home slot.
pub fn get_word_hash_index(word: &Vec<u8>) -> (r: usize)
    ensures
        r == word_hash(word@),
        r < VOCAB_HASH_TABLE_SIZE,
{
    let mut h: u64 = 0;
    let mut i: usize = 0;
    proof {
        lemma_word_hash_range(word@);
    }
    while i < word.len()
        invariant
            i <= word.len(),
            h == word_hash(word@.subrange(0, i as int)),
            h < VOCAB_HASH_TABLE_SIZE as u64,
        decreases word.len() - i,
    {
        let b = word[i];
        proof {
            assert(word@.subrange(0, (i + 1) as int).drop_last() =~= word@.subrange(0, i as int));
            assert(word@.subrange(0, (i + 1) as int).last() == word@[i as int]);
            lemma_word_hash_range(word@.subrange(0, (i + 1) as int));
        }
        h = (h * 257 + b as u64) % (VOCAB_HASH_TABLE_SIZE as u64);
        i = i + 1;
    }
    assert(word@.subrange(0, word@.len() as int) =~= word@);
    h as usize
}

/// Probes the hash index for `word` among the first `m` entries.
/// Returns `(j, _)` with `j >= 0` when entry `j` holds the word, and
/// `(-1, s)` with `s` the first free slot on the probe path when no
/// indexed entry does.
fn find_slot(table: &Vec<i32>, ws: &Vec<WordEntry>, word: &Vec<u8>, Ghost(m): Ghost<int>) -> (r: (
    i32,
    usize,
))
    requires
        table_partial(table@, ws@, m),
        m < VOCAB_HASH_TABLE_SIZE as int,
    ensures
        r.0 >= -1,
        r.0 >= 0 ==> {
            &&& 0 <= r.0 < m
            &&& ws@[r.0 as int].word@ == word@
        },
        r.0 < 0 ==> {
            &&& r.1 < VOCAB_HASH_TABLE_SIZE
            &&& table@[r.1 as int] == -1
            &&& forall|j: int| 0 <= j < m ==> (#[trigger] ws@[j]).word@ != word@
            &&& exists|off: int|
                {
                    &&& 0 <= off < VOCAB_HASH_TABLE_SIZE as int
                    &&& #[trigger] slot(word_hash(word@), off) == r.1 as int
                    &&& forall|o2: int|
                        0 <= o2 < off ==> table@[slot(word_hash(word@), #[trigger] (o2 + 0))] != -1
                }
        },
{
    let ghost h = word_hash(word@);
    let hh: usize = get_word_hash_index(word);
    let mut off: usize = 0;
    while off < VOCAB_HASH_TABLE_SIZE
        invariant
            table_partial(table@, ws@, m),
            m < VOCAB_HASH_TABLE_SIZE as int,
            h == word_hash(word@),
            hh == h,
            0 <= hh < VOCAB_HASH_TABLE_SIZE,
            off <= VOCAB_HASH_TABLE_SIZE,
            forall|o2: int|
                0 <= o2 < off ==> table@[slot(h, #[trigger] (o2 + 0))] != -1 && ws@[
                    table@[slot(h, o2)] as int
                ].word@ != word@,
        decreases VOCAB_HASH_TABLE_SIZE - off,
    {
        let s: usize = if hh + off < VOCAB_HASH_TABLE_SIZE {
            hh + off
        } else {
            hh + off - VOCAB_HASH_TABLE_SIZE
        };
        assert(s as int == slot(h, off as int));
        let v = table[s];
        if v == -1 {
            proof {
                assert forall|j: int| 0 <= j < m implies (#[trigger] ws@[j]).word@ != word@ by {
                    if ws@[j].word@ == word@ {
                        // The probe path to entry j cannot pass the free
                        // slot we just found.
                        assert(word_reachable(table@, ws@, j));
                        let off_j = choose|off_j: int|
                            {
                                &&& 0 <= off_j < VOCAB_HASH_TABLE_SIZE as int
                                &&& #[trigger] table@[slot(word_hash(ws@[j].word@), off_j)] == j
                                &&& forall|o2: int|
                                    0 <= o2 < off_j ==> table@[slot(
                                        word_hash(ws@[j].word@),
                                        #[trigger] (o2 + 0),
                                    )] != -1
                            };
                        if off_j < off {
                            assert(table@[slot(h, off_j + 0)] != -1 && ws@[
                                table@[slot(h, off_j)] as int
                            ].word@ != word@);
                        } else if off_j == off {
                            assert(table@[slot(h, off_j)] == j);
                        } else {
                            assert(table@[slot(word_hash(ws@[j].word@), (off as int) + 0)] != -1);
                        }
                    }
                }
                assert(exists|o: int|
                    {
                        &&& 0 <= o < VOCAB_HASH_TABLE_SIZE as int
                        &&& #[trigger] slot(word_hash(word@), o) == s as int
                        &&& forall|o2: int|
                            0 <= o2 < o ==> table@[slot(word_hash(word@), #[trigger] (o2 + 0))]
                                != -1
                    }) by {
                    assert(0 <= (off as int) < VOCAB_HASH_TABLE_SIZE as int && slot(
                        word_hash(word@),
                        off as int,
                    ) == s as int && forall|o2: int|
                        0 <= o2 < off as int ==> table@[slot(
                            word_hash(word@),
                            #[trigger] (o2 + 0),
                        )] != -1);
                }
            }
            return (-1, s);
        }
        let wi = v as usize;
        assert(0 <= v < m);
        if bytes_eq(&ws[wi].word, word) {
            return (v, s);
        }
        proof {
            assert forall|o2: int| 0 <= o2 < off + 1 implies table@[slot(h, #[trigger] (o2 + 0))]
                != -1 && ws@[table@[slot(h, o2)] as int].word@ != word@ by {
                if o2 == off {
                    assert(table@[slot(h, o2)] == v);
                }
            }
        }
        off = off + 1;
    }
    // A full wrap would mean every slot is occupied, yet fewer than
    // `VOCAB_HASH_TABLE_SIZE` entries are indexed.
    proof {
        assert forall|s: int| 0 <= s < table@.len() implies #[trigger] table@[s] != -1 by {
            lemma_probe_covers(h, s);
            let o = choose|o: int|
                0 <= o < VOCAB_HASH_TABLE_SIZE as int && #[trigger] slot(h, o) == s;
            assert(table@[slot(h, o + 0)] != -1);
        }
        lemma_occ_full(table@);
        assert(false);
    }
    (-1, 0)
}

/// Why a vocabulary file cannot be loaded.
#[derive(Clone, Copy, Debug, PartialEq, Eq, Structural)]
pub enum VocabError {
    /// A line is malformed: no newline, no space, an empty word, or a
    /// count that is not a positive integer fitting 32 bits.
    MalformedData,
    /// The file holds no entries.
    EmptyVocabulary,
    /// More entries than the hash index's pruning bound admits.
    TooManyWords,
    /// The same word appears on two lines.
    DuplicateWord,
}

/// The wordID under which `w` is indexed, `-1` where it is absent.
/// With pairwise distinct words this is the one position holding `w`.
pub open spec fn word_id_of(es: Seq<(Seq<u8>, u32)>, w: Seq<u8>) -> int {
    if exists|j: int| 0 <= j < es.len() && (#[trigger] es[j]).0 == w {
        choose|j: int| 0 <= j < es.len() && (#[trigger] es[j]).0 == w
    } else {
        -1
    }
}

/// Round trip: the saved file of any well-formed vocabulary parses back
/// to exactly the same entry sequence, so a vocabulary loaded from it
/// indexes every word under the same wordID and answers every search
/// identically.
pub proof fn lemma_save_load_round_trip(v: Vocabulary)
    requires
        v.wf(),
    ensures
        crate::codec::parse_vocab_bytes(crate::codec::vocab_file_bytes(v.entries())) == Some(
            v.entries(),
        ),
{
    crate::codec::lemma_vocab_file_round_trip(v.entries());
}

/// Copies a byte string.
fn clone_bytes(v: &Vec<u8>) -> (r: Vec<u8>)
    ensures
        r@ == v@,
{
    let mut r: Vec<u8> = Vec::new();
    let mut i: usize = 0;
    while i < v.len()
        invariant
            i <= v.len(),
            r@ == v@.subrange(0, i as int),
        decreases v.len() - i,
    {
        r.push(v[i]);
        proof {
            assert(v@.subrange(0, i as int).push(v@[i as int]) =~= v@.subrange(0, (i + 1) as int));
        }
        i = i + 1;
    }
    assert(v@.subrange(0, v@.len() as int) =~= v@);
    r
}

/// A table of `VOCAB_HASH_TABLE_SIZE` free slots.
fn fresh_table() -> (r: Vec<i32>)
    ensures
        r@.len() == VOCAB_HASH_TABLE_SIZE,
        forall|s: int| 0 <= s < r@.len() ==> #[trigger] r@[s] == -1,
        occupied_count(r@) == 0,
{
    let mut r: Vec<i32> = Vec::new();
    while r.len() < VOCAB_HASH_TABLE_SIZE
        invariant
            r@.len() <= VOCAB_HASH_TABLE_SIZE,
            forall|s: int| 0 <= s < r@.len() ==> #[trigger] r@[s] == -1,
        decreases VOCAB_HASH_TABLE_SIZE - r@.len(),
    {
        r.push(-1);
    }
    proof {
        lemma_occ_all_free(r@);
    }
    r
}

/// Writing entry index `m` into the free slot that probing for its word
/// found keeps the hash index consistent, now covering `m + 1` entries.
proof fn lemma_insert_preserves(table: Seq<i32>, ws: Seq<WordEntry>, m: int, s: int)
    requires
        table_partial(table, ws, m),
        m < ws.len(),
        m < VOCAB_HASH_TABLE_SIZE as int,
        0 <= s < table.len(),
        table[s] == -1,
        exists|off: int|
            {
                &&& 0 <= off < VOCAB_HASH_TABLE_SIZE as int
                &&& #[trigger] slot(word_hash(ws[m].word@), off) == s
                &&& forall|o2: int|
                    0 <= o2 < off ==> table[slot(word_hash(ws[m].word@), #[trigger] (o2 + 0))]
                        != -1
            },
    ensures
        table_partial(table.update(s, m as i32), ws, m + 1),
{
    let t2 = table.update(s, m as i32);
    lemma_occ_update(table, s, m as i32);
    assert forall|j: int| 0 <= j < m + 1 implies word_reachable(t2, ws, j) by {
        if j < m {
            assert(word_reachable(table, ws, j));
            let h = word_hash(ws[j].word@);
            let off_j = choose|off_j: int|
                {
                    &&& 0 <= off_j < VOCAB_HASH_TABLE_SIZE as int
                    &&& #[trigger] table[slot(h, off_j)] == j
                    &&& forall|o2: int| 0 <= o2 < off_j ==> table[slot(h, #[trigger] (o2 + 0))] != -1
                };
            assert(t2[slot(h, off_j)] == j);
            assert(forall|o2: int| 0 <= o2 < off_j ==> t2[slot(h, #[trigger] (o2 + 0))] != -1);
        } else {
            let h = word_hash(ws[m].word@);
            let off = choose|off: int|
                {
                    &&& 0 <= off < VOCAB_HASH_TABLE_SIZE as int
                    &&& #[trigger] slot(h, off) == s
                    &&& forall|o2: int| 0 <= o2 < off ==> table[slot(h, #[trigger] (o2 + 0))] != -1
                };
            assert(t2[slot(h, off)] == m);
            assert(forall|o2: int| 0 <= o2 < off ==> t2[slot(h, #[trigger] (o2 + 0))] != -1);
        }
    }
}

/// A pushed entry leaves the index's view of the existing entries alone.
proof fn lemma_table_partial_push(table: Seq<i32>, ws: Seq<WordEntry>, m: int, e: WordEntry)
    requires
        table_partial(table, ws, m),
    ensures
        table_partial(table, ws.push(e), m),
{
    assert forall|j: int| 0 <= j < m implies word_reachable(table, ws.push(e), j) by {
        assert(word_reachable(table, ws, j));
        let h = word_hash(ws[j].word@);
        let off_j = choose|off_j: int|
            {
                &&& 0 <= off_j < VOCAB_HASH_TABLE_SIZE as int
                &&& #[trigger] table[slot(h, off_j)] == j
                &&& forall|o2: int| 0 <= o2 < off_j ==> table[slot(h, #[trigger] (o2 + 0))] != -1
            };
        assert(ws.push(e)[j].word@ == ws[j].word@);
    }
}

/// Each entry alone is well-formed: a nonempty word, free of space and
/// newline, counted at least once.
spec fn elems_wf(es: Seq<(Seq<u8>, u32)>) -> bool {
    forall|i: int|
        0 <= i < es.len() ==> {
            &&& (#[trigger] es[i]).0.len() >= 1
            &&& es[i].1 >= 1
            &&& forall|k: int| 0 <= k < es[i].0.len() ==> (#[trigger] es[i].0[k]) != 32 && es[i].0[k] != 10
        }
}

/// In a descending run cut where the counts first fall below `mc`, the
/// kept prefix holds exactly the elements counted at least `mc` times.
proof fn lemma_sorted_cut_multiset(s: Seq<(Seq<u8>, u32)>, k: int, mc: u32)
    requires
        0 <= k <= s.len(),
        forall|i: int, j: int| 0 <= i < j < s.len() ==> (#[trigger] s[i]).1 >= (#[trigger] s[j]).1,
        forall|i: int| 0 <= i < k ==> (#[trigger] s[i]).1 >= mc,
        forall|i: int| k <= i < s.len() ==> (#[trigger] s[i]).1 < mc,
    ensures
        forall|e: (Seq<u8>, u32)|
            #[trigger] s.subrange(0, k).to_multiset().count(e) == (if e.1 >= mc {
                s.to_multiset().count(e)
            } else {
                0
            }),
    decreases s.len(),
{
    broadcast use vstd::seq_lib::group_to_multiset_ensures;

    if k == s.len() {
        assert(s.subrange(0, k) =~= s);
        assert forall|e: (Seq<u8>, u32)|
            #[trigger] s.subrange(0, k).to_multiset().count(e) == (if e.1 >= mc {
                s.to_multiset().count(e)
            } else {
                0
            }) by {
            if e.1 < mc {
                if s.to_multiset().count(e) > 0 {
                    assert(s.contains(e));
                    let i = choose|i: int| 0 <= i < s.len() && s[i] == e;
                    assert(s[i].1 >= mc);
                }
            }
        }
    } else {
        lemma_sorted_cut_multiset(s.drop_last(), k, mc);
        assert(s =~= s.drop_last().push(s.last()));
        assert(s.drop_last().subrange(0, k) =~= s.subrange(0, k));
        assert forall|e: (Seq<u8>, u32)|
            #[trigger] s.subrange(0, k).to_multiset().count(e) == (if e.1 >= mc {
                s.to_multiset().count(e)
            } else {
                0
            }) by {
            assert(s.to_multiset() =~= s.drop_last().to_multiset().insert(s.last()));
            if e.1 >= mc {
                assert(s.last().1 < mc);
                assert(e != s.last());
                assert(s.to_multiset().count(e) == s.drop_last().to_multiset().count(e));
            }
        }
    }
}

/// A count after one more observed occurrence, saturating at the top.
spec fn sat_inc(c: u32) -> u32 {
    if c < u32::MAX {
        (c + 1) as u32
    } else {
        c
    }
}

/// The entries that survive a pruning pass with threshold `thr`:
/// those counted more than `thr` times, in order.
spec fn retained(es: Seq<(Seq<u8>, u32)>, thr: u32) -> Seq<(Seq<u8>, u32)>
    decreases es.len(),
{
    if es.len() == 0 {
        Seq::empty()
    } else if es.last().1 > thr {
        retained(es.drop_last(), thr).push(es.last())
    } else {
        retained(es.drop_last(), thr)
    }
}

/// Total count over a sequence of entries.
pub open spec fn sum_counts(es: Seq<(Seq<u8>, u32)>) -> int
    decreases es.len(),
{
    if es.len() == 0 {
        0
    } else {
        sum_counts(es.drop_last()) + es.last().1
    }
}

proof fn lemma_sum_counts_bound(es: Seq<(Seq<u8>, u32)>)
    ensures
        0 <= sum_counts(es) <= es.len() * (u32::MAX as int),
    decreases es.len(),
{
    if es.len() > 0 {
        lemma_sum_counts_bound(es.drop_last());
        assert((es.len() - 1) * (u32::MAX as int) + u32::MAX as int == es.len() * (
        u32::MAX as int)) by (nonlinear_arith);
    }
}

/// Pruning picks a subsequence: any one element, and any pair in order,
/// come from positions of the original, in the same order.
proof fn lemma_retained_embed(es: Seq<(Seq<u8>, u32)>, thr: u32)
    ensures
        forall|k: int|
            0 <= k < retained(es, thr).len() ==> exists|j: int|
                0 <= j < es.len() && #[trigger] retained(es, thr)[k] == es[j],
        forall|k1: int, k2: int|
            0 <= k1 < k2 < retained(es, thr).len() ==> exists|j1: int, j2: int|
                0 <= j1 < j2 < es.len() && #[trigger] retained(es, thr)[k1] == es[j1] && #[trigger] retained(
                    es,
                    thr,
                )[k2] == es[j2],
    decreases es.len(),
{
    if es.len() > 0 {
        lemma_retained_embed(es.drop_last(), thr);
        let r = retained(es, thr);
        let rd = retained(es.drop_last(), thr);
        assert(forall|j: int| 0 <= j < es.len() - 1 ==> #[trigger] es.drop_last()[j] == es[j]);
        if es.last().1 > thr {
            assert forall|k: int| 0 <= k < r.len() implies exists|j: int|
                0 <= j < es.len() && #[trigger] r[k] == es[j] by {
                if k < rd.len() {
                    assert(r[k] == rd[k]);
                    let j = choose|j: int| 0 <= j < es.drop_last().len() && rd[k] == es.drop_last()[j];
                    assert(r[k] == es[j]);
                } else {
                    assert(r[k] == es[es.len() - 1]);
                }
            }
            assert forall|k1: int, k2: int| 0 <= k1 < k2 < r.len() implies exists|j1: int, j2: int|
                0 <= j1 < j2 < es.len() && #[trigger] r[k1] == es[j1] && #[trigger] r[k2]
                    == es[j2] by {
                if k2 < rd.len() {
                    let (j1, j2) = choose|j1: int, j2: int|
                        0 <= j1 < j2 < es.drop_last().len() && rd[k1] == es.drop_last()[j1] && rd[k2]
                            == es.drop_last()[j2];
                    assert(r[k1] == es[j1] && r[k2] == es[j2]);
                } else {
                    assert(r[k2] == es[es.len() - 1]);
                    let j1 = choose|j: int| 0 <= j < es.drop_last().len() && rd[k1] == es.drop_last()[j];
                    assert(r[k1] == es[j1] && j1 < es.len() - 1);
                }
            }
        } else {
            assert forall|k: int| 0 <= k < r.len() implies exists|j: int|
                0 <= j < es.len() && #[trigger] r[k] == es[j] by {
                let j = choose|j: int| 0 <= j < es.drop_last().len() && rd[k] == es.drop_last()[j];
                assert(r[k] == es[j]);
            }
            assert forall|k1: int, k2: int| 0 <= k1 < k2 < r.len() implies exists|j1: int, j2: int|
                0 <= j1 < j2 < es.len() && #[trigger] r[k1] == es[j1] && #[trigger] r[k2]
                    == es[j2] by {
                let (j1, j2) = choose|j1: int, j2: int|
                    0 <= j1 < j2 < es.drop_last().len() && rd[k1] == es.drop_last()[j1] && rd[k2]
                        == es.drop_last()[j2];
                assert(r[k1] == es[j1] && r[k2] == es[j2]);
            }
        }
    }
}

proof fn lemma_retained_len(es: Seq<(Seq<u8>, u32)>, thr: u32)
    ensures
        retained(es, thr).len() <= es.len(),
    decreases es.len(),
{
    if es.len() > 0 {
        lemma_retained_len(es.drop_last(), thr);
    }
}

/// After a pruning pass the sentinel is still first, and every surviving
/// entry was already there.
proof fn lemma_membership_after_reduce(
    before: Seq<(Seq<u8>, u32)>,
    after: Seq<(Seq<u8>, u32)>,
    thr: u32,
)
    requires
        before.len() >= 1,
        after == seq![before[0]] + retained(before.subrange(1, before.len() as int), thr),
    ensures
        after.len() >= 1,
        after[0] == before[0],
        forall|k: int|
            0 <= k < after.len() ==> exists|j: int|
                0 <= j < before.len() && #[trigger] after[k] == before[j],
{
    let tail = before.subrange(1, before.len() as int);
    lemma_retained_embed(tail, thr);
    assert forall|k: int| 0 <= k < after.len() implies exists|j: int|
        0 <= j < before.len() && #[trigger] after[k] == before[j] by {
        if k == 0 {
            assert(after[0] == before[0]);
        } else {
            let j = choose|j: int| 0 <= j < tail.len() && #[trigger] retained(tail, thr)[k - 1] == tail[j];
            assert(after[k] == before[j + 1]);
        }
    }
}

/// With the threshold at its top value no entry survives pruning.
proof fn lemma_retained_none(es: Seq<(Seq<u8>, u32)>)
    ensures
        retained(es, u32::MAX) == Seq::<(Seq<u8>, u32)>::empty(),
    decreases es.len(),
{
    if es.len() > 0 {
        lemma_retained_none(es.drop_last());
    }
}

/// Builds a fresh hash index over `ws`: `Some` exactly when the words
/// are pairwise distinct; `None` on a duplicate.
fn build_table(ws: &Vec<WordEntry>) -> (r: Option<Vec<i32>>)
    requires
        ws@.len() <= VOCAB_HASH_TABLE_SIZE,
    ensures
        match r {
            Some(t) => {
                &&& table_wf(t@, ws@)
                &&& forall|i: int, j: int|
                    0 <= i < j < ws@.len() ==> (#[trigger] ws@[i]).word@ != (#[trigger] ws@[j]).word@
            },
            None => exists|i: int, j: int|
                0 <= i < j < ws@.len() && (#[trigger] ws@[i]).word@ == (#[trigger] ws@[j]).word@,
        },
{
    let mut table: Vec<i32> = fresh_table();
    let mut j: usize = 0;
    while j < ws.len()
        invariant
            j <= ws@.len() <= VOCAB_HASH_TABLE_SIZE,
            table_partial(table@, ws@, j as int),
            forall|a: int, b: int|
                0 <= a < b < j ==> (#[trigger] ws@[a]).word@ != (#[trigger] ws@[b]).word@,
        decreases ws@.len() - j,
    {
        let (found, s) = find_slot(&table, ws, &ws[j].word, Ghost(j as int));
        if found >= 0 {
            proof {
                assert(ws@[found as int].word@ == ws@[j as int].word@);
            }
            return None;
        }
        let ghost t0 = table@;
        table.set(s, j as i32);
        proof {
            lemma_insert_preserves(t0, ws@, j as int, s as int);
        }
        j = j + 1;
    }
    Some(table)
}

/// Fixed number of slots in the unigram sampling table, set once. The
/// classic tools use around a hundred million slots; one million gives
/// the same O(1) weighted draw with ~1e-6 granularity of the mass
/// fractions at a fraction of the memory. Deliberate: which slot a
/// given seed picks scales with this constant.
pub const UNIGRAM_TABLE_SIZE: usize = 1_000_000;

/// The integer square root: the largest `r` with `r * r <= n`.
pub open spec fn isqrt_spec(n: nat) -> nat
    decreases n,
{
    if n == 0 {
        0
    } else {
        let r = isqrt_spec((n - 1) as nat);
        if (r + 1) * (r + 1) <= n {
            r + 1
        } else {
            r
        }
    }
}

proof fn lemma_isqrt_bounds(n: nat)
    ensures
        isqrt_spec(n) * isqrt_spec(n) <= n,
        n < (isqrt_spec(n) + 1) * (isqrt_spec(n) + 1),
    decreases n,
{
    reveal_with_fuel(isqrt_spec, 2);
    if n > 0 {
        lemma_isqrt_bounds((n - 1) as nat);
        let r = isqrt_spec((n - 1) as nat);
        assert(isqrt_spec(n) == (if (r + 1) * (r + 1) <= n {
            r + 1
        } else {
            r
        }));
        if (r + 1) * (r + 1) <= n {
            assert(isqrt_spec(n) * isqrt_spec(n) <= n) by (nonlinear_arith)
                requires
                    isqrt_spec(n) == r + 1,
                    (r + 1) * (r + 1) <= n,
            ;
            assert(n < (isqrt_spec(n) + 1) * (isqrt_spec(n) + 1)) by (nonlinear_arith)
                requires
                    isqrt_spec(n) == r + 1,
                    n <= (r + 1) * (r + 1),
                    r >= 0,
            ;
        } else {
            assert(isqrt_spec(n) * isqrt_spec(n) <= n) by (nonlinear_arith)
                requires
                    isqrt_spec(n) == r,
                    r * r <= n - 1,
            ;
            assert(n < (isqrt_spec(n) + 1) * (isqrt_spec(n) + 1)) by (nonlinear_arith)
                requires
                    isqrt_spec(n) == r,
                    !((r + 1) * (r + 1) <= n),
            ;
        }
    } else {
        assert(isqrt_spec(n) == 0);
        assert(isqrt_spec(n) * isqrt_spec(n) <= n) by (nonlinear_arith)
            requires
                isqrt_spec(n) == 0,
                n == 0,
        ;
        assert(n < (isqrt_spec(n) + 1) * (isqrt_spec(n) + 1)) by (nonlinear_arith)
            requires
                isqrt_spec(n) == 0,
                n == 0,
        ;
    }
}

proof fn lemma_isqrt_unique(n: nat, r: nat)
    requires
        r * r <= n,
        n < (r + 1) * (r + 1),
    ensures
        r == isqrt_spec(n),
{
    lemma_isqrt_bounds(n);
    let s = isqrt_spec(n);
    if r < s {
        assert((r + 1) * (r + 1) <= s * s) by (nonlinear_arith)
            requires
                r + 1 <= s,
        ;
    }
    if s < r {
        assert((s + 1) * (s + 1) <= r * r) by (nonlinear_arith)
            requires
                s + 1 <= r,
        ;
    }
}

/// `count^0.75`, rounded down: the fourth root of the count cubed.
pub open spec fn pow075(c: nat) -> nat {
    isqrt_spec(isqrt_spec(c * c * c))
}

proof fn lemma_pow075_bounds(c: nat)
    requires
        c <= u32::MAX,
    ensures
        pow075(c) < 0x1000000,
        c >= 1 ==> pow075(c) >= 1,
{
    let x = c * c * c;
    assert(x < 0x1000000000000000000000000) by (nonlinear_arith)
        requires
            x == c * c * c,
            c <= u32::MAX,
    ;
    lemma_isqrt_bounds(x);
    let s = isqrt_spec(x);
    if s >= 0x1000000000000 {
        assert(s * s >= 0x1000000000000000000000000) by (nonlinear_arith)
            requires
                s >= 0x1000000000000,
        ;
        assert(false);
    }
    lemma_isqrt_bounds(s);
    let r = isqrt_spec(s);
    if r >= 0x1000000 {
        assert(r * r >= 0x1000000000000) by (nonlinear_arith)
            requires
                r >= 0x1000000,
        ;
        assert(false);
    }
    if c >= 1 {
        assert(x >= 1) by (nonlinear_arith)
            requires
                x == c * c * c,
                c >= 1,
        ;
        if s == 0 {
            assert((s + 1) * (s + 1) == 1) by (nonlinear_arith)
                requires
                    s == 0,
            ;
            assert(false);
        }
        if r == 0 {
            assert((r + 1) * (r + 1) == 1) by (nonlinear_arith)
                requires
                    r == 0,
            ;
            assert(false);
        }
    }
}

/// The summed `count^0.75` mass of the first `k` entries.
pub open spec fn mass(es: Seq<(Seq<u8>, u32)>, k: int) -> int
    decreases k,
{
    if k <= 0 {
        0
    } else {
        mass(es, k - 1) + pow075(es[k - 1].1 as nat)
    }
}

proof fn lemma_mass_bounds(es: Seq<(Seq<u8>, u32)>, k: int)
    requires
        0 <= k <= es.len(),
    ensures
        0 <= mass(es, k) <= k * 0xffffff,
        elems_wf(es) && k >= 1 ==> mass(es, k) >= 1,
    decreases k,
{
    if k > 0 {
        lemma_mass_bounds(es, k - 1);
        lemma_pow075_bounds(es[k - 1].1 as nat);
        assert((k - 1) * 0xffffff + 0xffffff == k * 0xffffff) by (nonlinear_arith);
    }
}

/// The wordID written into unigram slot `i`: slot 0 gets wordID 0, and
/// after each slot the wordID advances when the slot's proportional
/// position has passed the cumulative mass fraction of the current word.
pub open spec fn uni_state(es: Seq<(Seq<u8>, u32)>, i: int) -> int
    decreases i,
{
    if i <= 0 {
        0
    } else {
        let w = uni_state(es, i - 1);
        if (i - 1) * mass(es, es.len() as int) > mass(es, w + 1) * (UNIGRAM_TABLE_SIZE as int) {
            w + 1
        } else {
            w
        }
    }
}

proof fn lemma_uni_state_bounds(es: Seq<(Seq<u8>, u32)>, i: int)
    requires
        1 <= es.len(),
        elems_wf(es),
        0 <= i <= UNIGRAM_TABLE_SIZE,
    ensures
        0 <= uni_state(es, i) < es.len(),
    decreases i,
{
    if i > 0 {
        lemma_uni_state_bounds(es, i - 1);
        let w = uni_state(es, i - 1);
        let total = mass(es, es.len() as int);
        if w + 1 == es.len() && (i - 1) * total > mass(es, w + 1) * (UNIGRAM_TABLE_SIZE as int) {
            // The whole mass is already covered: the fraction cannot be
            // passed before the table ends.
            lemma_mass_bounds(es, es.len() as int);
            assert((i - 1) * total <= (UNIGRAM_TABLE_SIZE as int - 1) * total) by (nonlinear_arith)
                requires
                    i - 1 <= UNIGRAM_TABLE_SIZE as int - 1,
                    total >= 0,
            ;
            assert((UNIGRAM_TABLE_SIZE as int - 1) * total < total * (UNIGRAM_TABLE_SIZE as int))
                by (nonlinear_arith)
                requires
                    total >= 1,
            ;
        }
    }
}

/// The largest `r` with `r * r <= x`, for `x` below `2^96`.
fn isqrt128(x: u128) -> (r: u128)
    requires
        x < 0x1000000000000000000000000,
    ensures
        r * r <= x,
        x < (r + 1) * (r + 1),
        r < 0x1000000000000,
{
    let mut lo: u128 = 0;
    let mut hi: u128 = 0x1000000000000;
    proof {
        assert((0x1000000000000u128 as int) * (0x1000000000000u128 as int)
            == 0x1000000000000000000000000) by (nonlinear_arith);
    }
    while lo + 1 < hi
        invariant
            lo < hi <= 0x1000000000000,
            lo * lo <= x,
            x < hi * hi,
        decreases hi - lo,
    {
        let mid = lo + (hi - lo) / 2;
        proof {
            assert(lo < mid < hi);
            assert(mid * mid < 0x1000000000000000000000000) by (nonlinear_arith)
                requires
                    mid < 0x1000000000000u128,
            ;
        }
        if mid * mid <= x {
            lo = mid;
        } else {
            hi = mid;
        }
    }
    lo
}

/// `count^0.75` as a machine number.
fn pow075_exec(c: u32) -> (r: u64)
    ensures
        r == pow075(c as nat),
        r < 0x1000000,
{
    proof {
        assert((c as int) * (c as int) < 0x10000000000000000) by (nonlinear_arith)
            requires
                c <= u32::MAX,
        ;
        assert((c as int) * (c as int) * (c as int) < 0x1000000000000000000000000) by (
        nonlinear_arith)
            requires
                c <= u32::MAX,
        ;
    }
    let x: u128 = (c as u128) * (c as u128) * (c as u128);
    let s = isqrt128(x);
    let r = isqrt128(s);
    proof {
        lemma_isqrt_unique(x as nat, s as nat);
        lemma_isqrt_unique(s as nat, r as nat);
        lemma_pow075_bounds(c as nat);
    }
    r as u64
}

/// Builds the unigram sampling table over the vocabulary's counts:
/// slot by slot, wordIDs in ascending order, each word covering slots in
/// proportion to its `count^0.75` share of the total mass.
fn init_unigram_table(vocab: &mut Vocabulary)
    requires
        old(vocab).wf(),
        1 <= old(vocab).entries().len(),
        !old(vocab).has_unigram(),
    ensures
        final(vocab).wf(),
        final(vocab).has_unigram(),
        final(vocab).entries() == old(vocab).entries(),
        final(vocab).train_words_spec() == old(vocab).train_words_spec(),
        final(vocab).min_reduce_spec() == old(vocab).min_reduce_spec(),
        forall|i: int|
            0 <= i < UNIGRAM_TABLE_SIZE ==> #[trigger] final(vocab).unigram_at(i) == uni_state(
                final(vocab).entries(),
                i,
            ),
{
    let ghost es = vocab.entries();
    proof {
        assert(elems_wf(es));
    }
    // Total mass over all entries.
    let mut total: u64 = 0;
    let mut j: usize = 0;
    while j < vocab.words.len()
        invariant
            j <= vocab.words@.len() <= VOCAB_MAX_WORDS,
            es == vocab.entries(),
            *vocab == *old(vocab),
            elems_wf(es),
            total == mass(es, j as int),
            total <= j * 0xffffff,
        decreases vocab.words@.len() - j,
    {
        proof {
            lemma_pow075_bounds(vocab.words@[j as int].count as nat);
            assert(es[j as int].1 == vocab.words@[j as int].count);
            assert((j as int) * 0xffffff + 0xffffff == (j + 1) * 0xffffff) by (nonlinear_arith);
            assert((j + 1) * 0xffffff <= VOCAB_MAX_WORDS * 0xffffff) by (nonlinear_arith)
                requires
                    j + 1 <= VOCAB_MAX_WORDS as int,
            ;
        }
        let p = pow075_exec(vocab.words[j].count);
        total = total + p;
        j = j + 1;
    }
    proof {
        lemma_mass_bounds(es, es.len() as int);
    }
    let total_mass = total;
    // Walk the slots, advancing the wordID as its mass share fills up.
    let mut w: usize = 0;
    let mut cum: u64 = pow075_exec(vocab.words[0].count);
    let mut table: Vec<i32> = Vec::new();
    proof {
        assert(es[0] == (vocab.words@[0].word@, vocab.words@[0].count));
        assert(mass(es, 1) == mass(es, 0) + pow075(es[0].1 as nat));
        assert(cum == mass(es, 1));
        lemma_uni_state_bounds(es, 0);
    }
    let mut i: usize = 0;
    while i < UNIGRAM_TABLE_SIZE
        invariant
            i <= UNIGRAM_TABLE_SIZE,
            es == vocab.entries(),
            *vocab == *old(vocab),
            1 <= es.len() <= VOCAB_MAX_WORDS,
            es.len() == vocab.words@.len(),
            elems_wf(es),
            total_mass == mass(es, es.len() as int),
            table@.len() == i,
            w == uni_state(es, i as int),
            0 <= w < es.len(),
            cum == mass(es, w as int + 1),
            forall|k: int| 0 <= k < i ==> #[trigger] table@[k] == uni_state(es, k),
        decreases UNIGRAM_TABLE_SIZE - i,
    {
        table.push(w as i32);
        proof {
            lemma_uni_state_bounds(es, i as int + 1);
            lemma_mass_bounds(es, w as int + 1);
            lemma_mass_bounds(es, es.len() as int);
            assert((i as int) * (total_mass as int) <= (UNIGRAM_TABLE_SIZE as int) * (
            VOCAB_MAX_WORDS as int * 0xffffff)) by (nonlinear_arith)
                requires
                    0 <= i as int <= UNIGRAM_TABLE_SIZE as int,
                    0 <= total_mass as int <= VOCAB_MAX_WORDS as int * 0xffffff,
            ;
            assert((cum as int) * (UNIGRAM_TABLE_SIZE as int) <= (VOCAB_MAX_WORDS as int
                * 0xffffff) * (UNIGRAM_TABLE_SIZE as int)) by (nonlinear_arith)
                requires
                    0 <= cum as int <= VOCAB_MAX_WORDS as int * 0xffffff,
            ;
        }
        if (i as u128) * (total_mass as u128) > (cum as u128) * (UNIGRAM_TABLE_SIZE as u128) {
            w = w + 1;
            let p = pow075_exec(vocab.words[w].count);
            proof {
                lemma_pow075_bounds(vocab.words@[w as int].count as nat);
                assert(es[w as int].1 == vocab.words@[w as int].count);
                lemma_mass_bounds(es, w as int);
                assert((w as int) * 0xffffff + 0xffffff <= VOCAB_MAX_WORDS as int * 0xffffff) by (
                nonlinear_arith)
                    requires
                        w as int + 1 <= VOCAB_MAX_WORDS as int,
                ;
            }
            cum = cum + p;
        }
        i = i + 1;
    }
    proof {
        assert forall|k: int| 0 <= k < table@.len() implies 0 <= #[trigger] table@[k]
            < vocab.words@.len() by {
            lemma_uni_state_bounds(es, k);
        }
    }
    vocab.unigram_table = table;
    proof {
        assert(entries_view(vocab.words@) == es);
    }
}

impl Vocabulary {
    /// The wordID held in unigram slot `i`.
    pub closed spec fn unigram_at(self, i: int) -> int {
        self.unigram_table@[i] as int
    }

    /// Picks a wordID to use as a negative sample: the unigram-table
    /// slot selected by the seed's upper bits, except that a sentinel
    /// draw falls back to a uniformly random non-sentinel wordID.
    pub fn sample_random_word(&self, rand_seed: i64) -> (r: i32)
        requires
            self.wf(),
            self.has_unigram(),
            self.entries().len() >= 2,
        ensures
            0 <= r < self.entries().len(),
            ({
                let idx = (((rand_seed >> 16) as u64) as int) % (UNIGRAM_TABLE_SIZE as int);
                if self.unigram_at(idx) != 0 {
                    r == self.unigram_at(idx)
                } else {
                    r == ((rand_seed as u64) as int) % (self.entries().len() - 1) + 1
                }
            }),
    {
        let shifted: u64 = #[verifier::truncate] ((rand_seed >> 16) as u64);
        let idx: usize = (shifted % (UNIGRAM_TABLE_SIZE as u64)) as usize;
        let target = self.unigram_table[idx];
        proof {
            assert(self.entries().len() == self.words@.len());
        }
        if target == 0 {
            let full: u64 = #[verifier::truncate] (rand_seed as u64);
            let m = full % ((self.words.len() - 1) as u64) + 1;
            m as i32
        } else {
            target
        }
    }

    /// Builds a vocabulary from a training corpus: tokenizes it from the
    /// start, inserts the sentinel first so it is guaranteed wordID 0,
    /// counts every token (pruning rare words under memory pressure),
    /// sorts the non-sentinel entries descending by count, drops those
    /// counted fewer than `min_count` times, and builds the unigram
    /// sampling table.
    pub fn learn_vocabulary_from_training_file(corpus: &Vec<u8>, min_count: u32) -> (r: Vocabulary)
        ensures
            r.wf(),
            r.has_unigram(),
            1 <= r.entries().len() <= VOCAB_MAX_WORDS,
            r.entries()[0].0 == sentinel_bytes(),
            // Entry words are pairwise distinct, so each word's wordID
            // (in particular the sentinel's, 0) is the one `search_word`
            // returns, and a saved file is always loadable.
            forall|i: int, j: int|
                0 <= i < j < r.entries().len() ==> (#[trigger] r.entries()[i]).0 != (
                #[trigger] r.entries()[j]).0,
            forall|i: int, j: int|
                1 <= i < j < r.entries().len() ==> (#[trigger] r.entries()[i]).1 >= (
                #[trigger] r.entries()[j]).1,
            forall|i: int|
                1 <= i < r.entries().len() ==> (#[trigger] r.entries()[i]).1 >= min_count,
            r.train_words_spec() == sum_counts(r.entries()),
            forall|i: int|
                1 <= i < r.entries().len() ==> stream_has_word(
                    tokens_of(corpus@),
                    (#[trigger] r.entries()[i]).0,
                ),
            forall|i: int|
                0 <= i < UNIGRAM_TABLE_SIZE ==> #[trigger] r.unigram_at(i) == uni_state(
                    r.entries(),
                    i,
                ),
            r.min_reduce_spec() >= 1,
            // No pruning pass can run while the corpus's distinct words
            // fit the pruning bound, so for every such corpus the
            // conditional clauses below hold outright.
            token_words(tokens_of(corpus@)).len() <= VOCAB_MAX_WORDS ==> r.min_reduce_spec() == 1,
            // Unless a pruning pass ran (the threshold moved), every
            // entry's count is exactly its occurrence total over the
            // corpus's tokens, and exactly the words whose total clears
            // `min_count` are retained.
            r.min_reduce_spec() == 1 ==> forall|i: int|
                0 <= i < r.entries().len() ==> (#[trigger] r.entries()[i]).1 == expected_count(
                    tokens_of(corpus@),
                    r.entries()[i].0,
                    tokens_of(corpus@).len() as int,
                ),
            r.min_reduce_spec() == 1 ==> forall|w: Seq<u8>|
                (w != sentinel_bytes() && #[trigger] occurrences(
                    tokens_of(corpus@),
                    w,
                    tokens_of(corpus@).len() as int,
                ) >= 1) ==> ((exists|i: int|
                    0 <= i < r.entries().len() && (#[trigger] r.entries()[i]).0 == w)
                    <==> expected_count(tokens_of(corpus@), w, tokens_of(corpus@).len() as int)
                    >= min_count),
            // The aggregate of the count law: the retained total is the
            // summed exact occurrence totals of the retained words.
            r.min_reduce_spec() == 1 ==> r.train_words_spec() == sum_expected(
                tokens_of(corpus@),
                r.entries(),
                tokens_of(corpus@).len() as int,
            ),
            // The sort is stable: among equal counts, wordIDs follow the
            // order in which the words first occur in the corpus.
            r.min_reduce_spec() == 1 ==> forall|i: int, j: int|
                (1 <= i < j < r.entries().len() && (#[trigger] r.entries()[i]).1 == (
                #[trigger] r.entries()[j]).1) ==> first_occurrence(
                    tokens_of(corpus@),
                    r.entries()[i].0,
                ) < first_occurrence(tokens_of(corpus@), r.entries()[j].0),
    {
        let ghost toks = tokens_of(corpus@);
        proof {
            crate::tokenizer::lemma_tokens_wf(corpus@, 0, false);
        }
        let mut vocab = Vocabulary::new();
        let _ = vocab.add_word(make_sentinel());
        proof {
            assert(vocab.entries() =~= Seq::<(Seq<u8>, u32)>::empty().push(
                (sentinel_bytes(), 1u32),
            ));
            assert(vocab.entries()[0] == (sentinel_bytes(), 1u32));
        }
        let mut it = TokenIterator::new(clone_bytes(corpus), 0);
        let ghost mut done: Seq<TokenView> = Seq::empty();
        proof {
            assert(done + it.remaining() =~= toks);
        }
        loop
            invariant
                it.wf(),
                it.data_spec() == corpus@,
                done + it.remaining() == toks,
                toks == tokens_of(corpus@),
                vocab.wf(),
                !vocab.has_unigram(),
                1 <= vocab.entries().len() <= VOCAB_MAX_WORDS,
                vocab.entries()[0].0 == sentinel_bytes(),
                forall|i: int|
                    1 <= i < vocab.entries().len() ==> stream_has_word(
                        toks,
                        (#[trigger] vocab.entries()[i]).0,
                    ),
                vocab.min_reduce_spec() >= 1,
                token_words(toks).len() <= VOCAB_MAX_WORDS ==> vocab.min_reduce_spec() == 1,
                vocab.min_reduce_spec() == 1 ==> forall|i: int|
                    0 <= i < vocab.entries().len() ==> (#[trigger] vocab.entries()[i]).1
                        == expected_count(toks, vocab.entries()[i].0, done.len() as int),
                vocab.min_reduce_spec() == 1 ==> forall|w: Seq<u8>|
                    #[trigger] occurrences(toks, w, done.len() as int) >= 1 ==> exists|i: int|
                        0 <= i < vocab.entries().len() && (#[trigger] vocab.entries()[i]).0 == w,
                vocab.min_reduce_spec() == 1 ==> forall|i: int, j: int|
                    1 <= i < j < vocab.entries().len() ==> first_occurrence(
                        toks,
                        (#[trigger] vocab.entries()[i]).0,
                    ) < first_occurrence(toks, (#[trigger] vocab.entries()[j]).0),
            ensures
                it.remaining() == Seq::<TokenView>::empty(),
                done + it.remaining() == toks,
                vocab.wf(),
                !vocab.has_unigram(),
                1 <= vocab.entries().len() <= VOCAB_MAX_WORDS,
                vocab.entries()[0].0 == sentinel_bytes(),
                forall|i: int|
                    1 <= i < vocab.entries().len() ==> stream_has_word(
                        toks,
                        (#[trigger] vocab.entries()[i]).0,
                    ),
                vocab.min_reduce_spec() >= 1,
                token_words(toks).len() <= VOCAB_MAX_WORDS ==> vocab.min_reduce_spec() == 1,
                vocab.min_reduce_spec() == 1 ==> forall|i: int|
                    0 <= i < vocab.entries().len() ==> (#[trigger] vocab.entries()[i]).1
                        == expected_count(toks, vocab.entries()[i].0, done.len() as int),
                vocab.min_reduce_spec() == 1 ==> forall|w: Seq<u8>|
                    #[trigger] occurrences(toks, w, done.len() as int) >= 1 ==> exists|i: int|
                        0 <= i < vocab.entries().len() && (#[trigger] vocab.entries()[i]).0 == w,
                vocab.min_reduce_spec() == 1 ==> forall|i: int, j: int|
                    1 <= i < j < vocab.entries().len() ==> first_occurrence(
                        toks,
                        (#[trigger] vocab.entries()[i]).0,
                    ) < first_occurrence(toks, (#[trigger] vocab.entries()[j]).0),
            decreases it.remaining().len(),
        {
            let ghost prev_rem = it.remaining();
            let topt = it.read_token();
            let t = match topt {
                Some(t) => t,
                None => { break ; },
            };
            let ghost idx = done.len() as int;
            proof {
                assert(prev_rem == seq![t@] + it.remaining());
                assert(toks[idx] == prev_rem[0]);
                assert(toks[idx] == t@);
                done = done.push(t@);
                assert(done + it.remaining() =~= toks);
            }
            match t {
                Token::Word(w) => {
                    proof {
                        // Token well-formedness: nonempty, no separator
                        // bytes, so in particular no space or newline.
                        crate::tokenizer::lemma_tokens_wf(corpus@, 0, false);
                        assert(toks[idx] == crate::tokenizer::spec_tokens(corpus@, 0, false)[idx]);
                        assert(match toks[idx] {
                            TokenView::Word(wv) => {
                                &&& 1 <= wv.len() <= crate::tokenizer::MAX_TOKEN_LEN
                                &&& forall|k: int|
                                    0 <= k < wv.len() ==> !crate::tokenizer::is_sep(
                                        #[trigger] wv[k],
                                    )
                            },
                            TokenView::End => true,
                        });
                        assert(forall|k: int|
                            0 <= k < w@.len() ==> #[trigger] w@[k] != 32 && w@[k] != 10);
                    }
                    let ghost es_before = vocab.entries();
                    let ghost wv = w@;
                    let ghost had = vocab.contains_word(w@);
                    let ghost mr_before = vocab.min_reduce_spec();
                    proof {
                        assert(words_wf(es_before));
                    }
                    let rid = vocab.add_word(w);
                    proof {
                        assert(stream_has_word(toks, wv)) by {
                            assert(toks[idx] == TokenView::Word(wv));
                        }
                        assert(token_word(toks[idx]) == wv);
                        if token_words(toks).len() <= VOCAB_MAX_WORDS && mr_before == 1 && !had
                            && es_before.len() >= VOCAB_MAX_WORDS {
                            // A corpus whose distinct words fit the
                            // pruning bound cannot fill the vocabulary:
                            // the entries plus the new word would be
                            // more distinct words than the corpus has.
                            broadcast use vstd::seq_lib::seq_to_set_is_finite;
                            broadcast use vstd::set::group_set_axioms;

                            let words_seq = es_before.map_values(|e: (Seq<u8>, u32)| e.0).push(wv);
                            assert(words_seq.no_duplicates()) by {
                                assert forall|a: int, b: int|
                                    0 <= a < words_seq.len() && 0 <= b < words_seq.len() && a
                                        != b implies words_seq[a] != words_seq[b] by {
                                    if a < es_before.len() && b < es_before.len() {
                                        assert(words_seq[a] == es_before[a].0);
                                        assert(words_seq[b] == es_before[b].0);
                                    } else if a < es_before.len() {
                                        assert(words_seq[a] == es_before[a].0);
                                        assert(words_seq[b] == wv);
                                        assert(es_before[a].0 != wv);
                                    } else {
                                        assert(words_seq[a] == wv);
                                        assert(words_seq[b] == es_before[b].0);
                                        assert(es_before[b].0 != wv);
                                    }
                                }
                            }
                            let mapped = toks.map_values(|t: TokenView| token_word(t));
                            assert forall|a: int|
                                0 <= a < words_seq.len() implies token_words(toks).contains(
                                #[trigger] words_seq[a],
                            ) by {
                                if a == 0 {
                                    assert(words_seq[0] == sentinel_bytes());
                                } else if a < es_before.len() {
                                    assert(words_seq[a] == es_before[a].0);
                                    assert(stream_has_word(toks, es_before[a].0));
                                    let k = choose|k: int|
                                        0 <= k < toks.len() && #[trigger] toks[k]
                                            == TokenView::Word(es_before[a].0);
                                    assert(mapped[k] == es_before[a].0);
                                    assert(mapped.contains(es_before[a].0));
                                } else {
                                    assert(words_seq[a] == wv);
                                    assert(mapped[idx] == wv);
                                    assert(mapped.contains(wv));
                                }
                            }
                            lemma_distinct_le_card(words_seq, token_words(toks));
                            assert(false);
                        }
                        if mr_before == 1 && vocab.min_reduce_spec() == 1 {
                            let es2 = vocab.entries();
                            // Count bookkeeping: only this token's word
                            // moved, by exactly one observation.
                            assert forall|i: int| 0 <= i < es2.len() implies (#[trigger] es2[i]).1
                                == expected_count(toks, es2[i].0, idx + 1) by {
                                lemma_occurrences_nonneg(toks, es2[i].0, idx);
                                assert(occurrences(toks, es2[i].0, idx + 1) == occurrences(
                                    toks,
                                    es2[i].0,
                                    idx,
                                ) + (if token_word(toks[idx]) == es2[i].0 {
                                    1int
                                } else {
                                    0int
                                }));
                                if had {
                                    if i == rid {
                                        assert(es2[i] == (wv, sat_inc(es_before[rid as int].1)));
                                        assert(es_before[rid as int].1 == expected_count(
                                            toks,
                                            wv,
                                            idx,
                                        ));
                                        lemma_occurrences_nonneg(toks, wv, idx);
                                        lemma_sat_inc_clamp(
                                            occurrences(toks, wv, idx) + (
                                            if wv == sentinel_bytes() {
                                                1int
                                            } else {
                                                0int
                                            }),
                                        );
                                    } else {
                                        assert(es2[i] == es_before[i]);
                                        assert(es_before[rid as int].0 == wv);
                                        assert(es_before[i].0 != wv);
                                    }
                                } else {
                                    assert(es_before.len() < VOCAB_MAX_WORDS);
                                    if i < es_before.len() {
                                        assert(es2[i] == es_before[i]);
                                        assert(es_before[i].0 != wv);
                                    } else {
                                        assert(es2[i] == (wv, 1u32));
                                        // A word never seen has no prior
                                        // occurrences, and is not the
                                        // ever-present sentinel.
                                        if occurrences(toks, wv, idx) >= 1 {
                                            let jj = choose|jj: int|
                                                0 <= jj < es_before.len() && (
                                                #[trigger] es_before[jj]).0 == wv;
                                            assert(false);
                                        }
                                        assert(wv != sentinel_bytes()) by {
                                            assert(es_before[0].0 == sentinel_bytes());
                                        }
                                    }
                                }
                            }
                            // Every counted word stays reachable.
                            assert forall|ww: Seq<u8>|
                                #[trigger] occurrences(toks, ww, idx + 1) >= 1 implies exists|
                                i: int,
                            |
                                0 <= i < es2.len() && (#[trigger] es2[i]).0 == ww by {
                                if token_word(toks[idx]) == ww {
                                    if had {
                                        assert(es2[rid as int].0 == wv);
                                    } else {
                                        assert(es2[es_before.len() as int].0 == wv);
                                    }
                                } else {
                                    assert(occurrences(toks, ww, idx) >= 1);
                                    let j = choose|j: int|
                                        0 <= j < es_before.len() && (#[trigger] es_before[j]).0
                                            == ww;
                                    assert(es2[j].0 == ww);
                                }
                            }
                            // Entries stay in first-occurrence order: a
                            // newly appended word first occurs at this
                            // very token, later than every word already
                            // counted.
                            assert forall|a: int, b: int|
                                1 <= a < b < es2.len() implies first_occurrence(
                                toks,
                                (#[trigger] es2[a]).0,
                            ) < first_occurrence(toks, (#[trigger] es2[b]).0) by {
                                if had || b < es_before.len() {
                                    assert(es2[a].0 == es_before[a].0);
                                    assert(es2[b].0 == es_before[b].0);
                                } else {
                                    assert(es2[b].0 == wv);
                                    assert(es2[a].0 == es_before[a].0);
                                    lemma_occurrences_nonneg(toks, wv, idx);
                                    if occurrences(toks, wv, idx) >= 1 {
                                        let jj = choose|jj: int|
                                            0 <= jj < es_before.len() && (
                                            #[trigger] es_before[jj]).0 == wv;
                                        assert(false);
                                    }
                                    lemma_occ_zero_before(toks, wv, idx);
                                    lemma_first_occ_exact(toks, wv, 0, idx);
                                    // The word at `a` was counted before.
                                    assert(es_before[a].1 == expected_count(
                                        toks,
                                        es_before[a].0,
                                        idx,
                                    ));
                                    assert(es_before[a].0 != sentinel_bytes()) by {
                                        assert(es_before[0].0 == sentinel_bytes());
                                    }
                                    assert(es_before[a].1 >= 1);
                                    lemma_occurrences_nonneg(toks, es_before[a].0, idx);
                                    assert(occurrences(toks, es_before[a].0, idx) >= 1);
                                    lemma_occ_pos_before(toks, es_before[a].0, idx);
                                    let jj = choose|jj: int|
                                        0 <= jj < idx && token_word(#[trigger] toks[jj])
                                            == es_before[a].0;
                                    lemma_first_occ_le_match(toks, es_before[a].0, 0, jj);
                                }
                            }
                        }
                        assert forall|i: int|
                            1 <= i < vocab.entries().len() implies stream_has_word(
                            toks,
                            (#[trigger] vocab.entries()[i]).0,
                        ) by {
                            let es2 = vocab.entries();
                            if had {
                                assert(es2[i].0 == es_before[i].0);
                            } else if es_before.len() < VOCAB_MAX_WORDS {
                                if i < es_before.len() {
                                    assert(es2[i].0 == es_before[i].0);
                                } else {
                                    assert(es2[i].0 == wv);
                                }
                            } else {
                                let j = choose|j: int|
                                    0 <= j < es_before.len() + 1 && es2[i] == es_before.push(
                                        (wv, 1u32),
                                    )[j];
                                if j < es_before.len() {
                                    if j == 0 {
                                        assert(es2[i].0 == sentinel_bytes());
                                        assert(es2[0].0 == sentinel_bytes());
                                        assert(false);
                                    }
                                } else {
                                    assert(es2[i].0 == wv);
                                }
                            }
                        }
                    }
                },
                Token::End => {
                    let ghost es_before = vocab.entries();
                    let ghost mr_before = vocab.min_reduce_spec();
                    proof {
                        assert(vocab.contains_word(sentinel_bytes())) by {
                            assert(vocab.entries()[0].0 == sentinel_bytes());
                        }
                        assert(words_wf(es_before));
                    }
                    let rid = vocab.add_word(make_sentinel());
                    proof {
                        assert forall|i: int|
                            1 <= i < vocab.entries().len() implies stream_has_word(
                            toks,
                            (#[trigger] vocab.entries()[i]).0,
                        ) by {
                            assert(vocab.entries()[i].0 == es_before[i].0);
                        }
                        assert(token_word(toks[idx]) == sentinel_bytes());
                        if mr_before == 1 && vocab.min_reduce_spec() == 1 {
                            let es2 = vocab.entries();
                            let sw = sentinel_bytes();
                            assert(es_before[rid as int].0 == sw);
                            assert forall|i: int| 0 <= i < es2.len() implies (#[trigger] es2[i]).1
                                == expected_count(toks, es2[i].0, idx + 1) by {
                                lemma_occurrences_nonneg(toks, es2[i].0, idx);
                                assert(occurrences(toks, es2[i].0, idx + 1) == occurrences(
                                    toks,
                                    es2[i].0,
                                    idx,
                                ) + (if token_word(toks[idx]) == es2[i].0 {
                                    1int
                                } else {
                                    0int
                                }));
                                if i == rid {
                                    assert(es2[i] == (sw, sat_inc(es_before[rid as int].1)));
                                    assert(es_before[rid as int].1 == expected_count(
                                        toks,
                                        sw,
                                        idx,
                                    ));
                                    lemma_occurrences_nonneg(toks, sw, idx);
                                    lemma_sat_inc_clamp(occurrences(toks, sw, idx) + 1);
                                } else {
                                    assert(es2[i] == es_before[i]);
                                    assert(es_before[i].0 != sw);
                                }
                            }
                            assert forall|ww: Seq<u8>|
                                #[trigger] occurrences(toks, ww, idx + 1) >= 1 implies exists|
                                i: int,
                            |
                                0 <= i < es2.len() && (#[trigger] es2[i]).0 == ww by {
                                if token_word(toks[idx]) == ww {
                                    assert(es2[rid as int].0 == sw);
                                } else {
                                    assert(occurrences(toks, ww, idx) >= 1);
                                    let j = choose|j: int|
                                        0 <= j < es_before.len() && (#[trigger] es_before[j]).0
                                            == ww;
                                    assert(es2[j].0 == ww);
                                }
                            }
                            // Only a count moved: the words, and so
                            // their first-occurrence order, are as before.
                            assert forall|a: int, b: int|
                                1 <= a < b < es2.len() implies first_occurrence(
                                toks,
                                (#[trigger] es2[a]).0,
                            ) < first_occurrence(toks, (#[trigger] es2[b]).0) by {
                                assert(es2[a].0 == es_before[a].0);
                                assert(es2[b].0 == es_before[b].0);
                            }
                        }
                    }
                },
            }
        }
        let ghost es_scan = vocab.entries();
        let ghost ll = toks.len() as int;
        proof {
            // The whole stream was consumed.
            assert(done + it.remaining() =~= done);
            assert(done == toks);
        }
        vocab.sort_vocab(min_count);
        proof {
            let es2 = vocab.entries();
            let sub2 = es2.subrange(1, es2.len() as int);
            let sub1 = es_scan.subrange(1, es_scan.len() as int);
            assert forall|i: int| 1 <= i < es2.len() implies stream_has_word(
                toks,
                (#[trigger] es2[i]).0,
            ) by {
                let e = es2[i];
                assert(sub2[i - 1] == e);
                vstd::seq_lib::to_multiset_contains(sub2, e);
                assert(sub2.to_multiset().count(e) > 0);
                assert(sub1.to_multiset().count(e) > 0);
                vstd::seq_lib::to_multiset_contains(sub1, e);
                let j = choose|j: int| 0 <= j < sub1.len() && sub1[j] == e;
                assert(es_scan[j + 1] == e);
            }
            if vocab.min_reduce_spec() == 1 {
                // Sorting and cutting moved entries around whole, so each
                // kept entry still carries its exact occurrence total.
                assert forall|i: int| 0 <= i < es2.len() implies (#[trigger] es2[i]).1
                    == expected_count(toks, es2[i].0, ll) by {
                    if i == 0 {
                        assert(es2[0] == es_scan[0]);
                    } else {
                        let e = es2[i];
                        assert(sub2[i - 1] == e);
                        vstd::seq_lib::to_multiset_contains(sub2, e);
                        assert(sub2.to_multiset().count(e) > 0);
                        assert(sub1.to_multiset().count(e) > 0);
                        vstd::seq_lib::to_multiset_contains(sub1, e);
                        let j = choose|j: int| 0 <= j < sub1.len() && sub1[j] == e;
                        assert(es_scan[j + 1] == e);
                    }
                }
                assert forall|w: Seq<u8>|
                    (w != sentinel_bytes() && #[trigger] occurrences(toks, w, ll) >= 1) implies ((
                exists|i: int| 0 <= i < es2.len() && (#[trigger] es2[i]).0 == w)
                    <==> expected_count(toks, w, ll) >= min_count) by {
                    if exists|i: int| 0 <= i < es2.len() && (#[trigger] es2[i]).0 == w {
                        let i = choose|i: int| 0 <= i < es2.len() && (#[trigger] es2[i]).0 == w;
                        assert(i >= 1) by {
                            assert(es2[0].0 == sentinel_bytes());
                        }
                        assert(es2[i].1 >= min_count);
                        assert(es2[i].1 == expected_count(toks, w, ll));
                    }
                    if expected_count(toks, w, ll) >= min_count {
                        // The scan recorded the word; its entry clears
                        // the cut and survives into the sorted tail.
                        let j = choose|j: int|
                            0 <= j < es_scan.len() && (#[trigger] es_scan[j]).0 == w;
                        assert(j >= 1) by {
                            assert(es_scan[0].0 == sentinel_bytes());
                        }
                        let e = es_scan[j];
                        assert(e.1 == expected_count(toks, w, ll));
                        assert(sub1[j - 1] == e);
                        vstd::seq_lib::to_multiset_contains(sub1, e);
                        assert(sub1.to_multiset().count(e) >= 1);
                        assert(sub2.to_multiset().count(e) >= 1);
                        vstd::seq_lib::to_multiset_contains(sub2, e);
                        let k = choose|k: int| 0 <= k < sub2.len() && sub2[k] == e;
                        assert(es2[k + 1] == e);
                        assert(es2[k + 1].0 == w);
                    }
                }
                // Equal counts stand in first-occurrence order: the
                // sort's stability gives scan positions in that order,
                // and the scan appended words as they first occurred.
                assert forall|a: int, b: int|
                    (1 <= a < b < es2.len() && (#[trigger] es2[a]).1 == (#[trigger] es2[b]).1)
                        implies first_occurrence(toks, es2[a].0) < first_occurrence(
                    toks,
                    es2[b].0,
                ) by {
                    let (p, q) = choose|p: int, q: int|
                        1 <= p < q < es_scan.len() && es_scan[p] == #[trigger] es2[a] && es_scan[q]
                            == es2[b];
                    assert(first_occurrence(toks, es_scan[p].0) < first_occurrence(
                        toks,
                        es_scan[q].0,
                    ));
                }
            }
        }
        init_unigram_table(&mut vocab);
        proof {
            if vocab.min_reduce_spec() == 1 {
                lemma_sum_counts_matches_expected(toks, vocab.entries(), ll);
            }
        }
        vocab
    }

    /// Serializes the vocabulary as its text file: one `"<word> <count>"`
    /// line per entry, in wordID order, the sentinel included like any
    /// other word.
    pub fn save_vocab(&self) -> (r: Vec<u8>)
        requires
            self.wf(),
        ensures
            r@ == crate::codec::vocab_file_bytes(self.entries()),
    {
        let ghost es = self.entries();
        let mut out: Vec<u8> = Vec::new();
        proof {
            assert(es.subrange(0, 0) =~= Seq::<(Seq<u8>, u32)>::empty());
        }
        let mut i: usize = 0;
        while i < self.words.len()
            invariant
                i <= self.words@.len(),
                es == self.entries(),
                out@ == crate::codec::vocab_file_bytes(es.subrange(0, i as int)),
            decreases self.words@.len() - i,
        {
            let ghost base = out@;
            let mut j: usize = 0;
            while j < self.words[i].word.len()
                invariant
                    i < self.words@.len(),
                    j <= self.words@[i as int].word@.len(),
                    es == self.entries(),
                    out@ == base + self.words@[i as int].word@.subrange(0, j as int),
                decreases self.words@[i as int].word@.len() - j,
            {
                out.push(self.words[i].word[j]);
                proof {
                    let w = self.words@[i as int].word@;
                    assert(w.subrange(0, j as int).push(w[j as int]) =~= w.subrange(
                        0,
                        (j + 1) as int,
                    ));
                    assert(out@ =~= base + w.subrange(0, (j + 1) as int));
                }
                j = j + 1;
            }
            proof {
                let w = self.words@[i as int].word@;
                assert(w.subrange(0, w.len() as int) =~= w);
            }
            out.push(32);
            crate::codec::push_dec_u64(self.words[i].count as u64, &mut out);
            out.push(10);
            proof {
                let e = es[i as int];
                assert(e == (self.words@[i as int].word@, self.words@[i as int].count));
                crate::codec::lemma_vocab_file_push(es.subrange(0, i as int), e);
                assert(es.subrange(0, (i + 1) as int) =~= es.subrange(0, i as int).push(e));
                assert(out@ =~= crate::codec::vocab_file_bytes(es.subrange(0, i as int))
                    + crate::codec::line_bytes(e));
            }
            i = i + 1;
        }
        proof {
            assert(es.subrange(0, self.words@.len() as int) =~= es);
        }
        out
    }

    /// Loads a vocabulary from the bytes of its text file: parses
    /// `"<word> <count>"` lines; on success the entries stand in file
    /// order and the unigram table is built. No `min_count` filter is
    /// reapplied.
    ///
    /// Error policy: a line without a newline, without a space, with an
    /// empty word, or with a count that is not a positive integer
    /// fitting 32 bits is a data-format error (a zero count cannot be a
    /// word's occurrence total). Beyond the format itself, a duplicated
    /// word is rejected — the hash index holds no duplicate entries, so
    /// no vocabulary could represent such a file — and so is a file
    /// with more entries than the index's pruning bound admits, since
    /// the index's capacity is fixed.
    pub fn load_from_file(data: &Vec<u8>) -> (r: Result<Vocabulary, VocabError>)
        ensures
            ({
                match crate::codec::parse_vocab_bytes(data@) {
                    None => r == Err::<Vocabulary, VocabError>(VocabError::MalformedData),
                    Some(es) => {
                        if es.len() == 0 {
                            r == Err::<Vocabulary, VocabError>(VocabError::EmptyVocabulary)
                        } else if es.len() > VOCAB_MAX_WORDS {
                            r == Err::<Vocabulary, VocabError>(VocabError::TooManyWords)
                        } else if exists|i: int, j: int|
                            0 <= i < j < es.len() && (#[trigger] es[i]).0 == (#[trigger] es[j]).0 {
                            r == Err::<Vocabulary, VocabError>(VocabError::DuplicateWord)
                        } else {
                            match r {
                                Ok(v) => {
                                    &&& v.wf()
                                    &&& v.has_unigram()
                                    &&& v.entries() == es
                                    &&& v.train_words_spec() == sum_counts(es)
                                    &&& v.min_reduce_spec() == 1
                                    &&& forall|i: int|
                                        0 <= i < UNIGRAM_TABLE_SIZE ==> #[trigger] v.unigram_at(i)
                                            == uni_state(es, i)
                                },
                                Err(_) => false,
                            }
                        }
                    },
                }
            }),
    {
        let ghost whole = crate::codec::parse_vocab_bytes(data@);
        let mut entries: Vec<WordEntry> = Vec::new();
        let mut pos: usize = 0;
        proof {
            assert(entries_view(entries@) =~= Seq::<(Seq<u8>, u32)>::empty());
        }
        while pos < data.len()
            invariant
                pos <= data@.len(),
                whole == crate::codec::parse_vocab_bytes(data@),
                whole == (match crate::codec::parse_vocab_from(data@, pos as int) {
                    None => None::<Seq<(Seq<u8>, u32)>>,
                    Some(rest) => Some(entries_view(entries@) + rest),
                }),
                elems_wf(entries_view(entries@)),
            decreases data@.len() - pos,
        {
            let nl = match crate::codec::find_byte_exec(data.as_slice(), 10, pos) {
                Some(nl) => nl,
                None => {
                    return Err(VocabError::MalformedData);
                },
            };
            let sp = match crate::codec::find_byte_exec(data.as_slice(), 32, pos) {
                Some(sp) => sp,
                None => {
                    return Err(VocabError::MalformedData);
                },
            };
            if !(pos < sp && sp < nl) {
                return Err(VocabError::MalformedData);
            }
            let count = match crate::codec::parse_u32(data.as_slice(), sp + 1, nl) {
                Some(c) => c,
                None => {
                    return Err(VocabError::MalformedData);
                },
            };
            if count == 0 {
                return Err(VocabError::MalformedData);
            }
            // Copy the word's bytes out of the line.
            let mut w: Vec<u8> = Vec::new();
            let mut k = pos;
            while k < sp
                invariant
                    pos <= k <= sp <= data@.len(),
                    w@ == data@.subrange(pos as int, k as int),
                decreases sp - k,
            {
                w.push(data[k]);
                proof {
                    assert(data@.subrange(pos as int, k as int).push(data@[k as int]) =~= data@
                        .subrange(pos as int, (k + 1) as int));
                }
                k = k + 1;
            }
            let ghost pre = entries_view(entries@);
            entries.push(WordEntry { word: w, count });
            proof {
                let es_new = entries_view(entries@);
                let e = (data@.subrange(pos as int, sp as int), count);
                assert(es_new =~= pre.push(e));
                // The line parses to exactly this entry.
                crate::codec::lemma_find_byte_bounds(data@, 10, pos as int);
                crate::codec::lemma_find_byte_bounds(data@, 32, pos as int);
                assert(crate::codec::parse_vocab_from(data@, pos as int) == (
                match crate::codec::parse_vocab_from(data@, nl as int + 1) {
                    None => None::<Seq<(Seq<u8>, u32)>>,
                    Some(rest) => Some(seq![e] + rest),
                }));
                match crate::codec::parse_vocab_from(data@, nl as int + 1) {
                    None => {},
                    Some(rest) => {
                        assert(pre + (seq![e] + rest) =~= es_new + rest);
                    },
                }
                // The new entry is well-formed: the word is nonempty and
                // free of space and newline, the count positive.
                assert forall|i: int| 0 <= i < es_new.len() implies {
                    &&& (#[trigger] es_new[i]).0.len() >= 1
                    &&& es_new[i].1 >= 1
                    &&& forall|kk: int|
                        0 <= kk < es_new[i].0.len() ==> (#[trigger] es_new[i].0[kk]) != 32
                            && es_new[i].0[kk] != 10
                } by {
                    if i < pre.len() {
                        assert(es_new[i] == pre[i]);
                    } else {
                        assert(es_new[i] == e);
                        assert forall|kk: int| 0 <= kk < e.0.len() implies (#[trigger] e.0[kk])
                            != 32 && e.0[kk] != 10 by {
                            assert(e.0[kk] == data@[pos + kk]);
                        }
                    }
                }
            }
            pos = nl + 1;
        }
        proof {
            assert(crate::codec::parse_vocab_from(data@, pos as int) == Some(Seq::<(
                Seq<u8>,
                u32,
            )>::empty()));
            assert(entries_view(entries@) + Seq::<(Seq<u8>, u32)>::empty() =~= entries_view(
                entries@,
            ));
            assert(whole == Some(entries_view(entries@)));
        }
        if entries.len() == 0 {
            return Err(VocabError::EmptyVocabulary);
        }
        if entries.len() > VOCAB_MAX_WORDS {
            return Err(VocabError::TooManyWords);
        }
        let ghost es = entries_view(entries@);
        match build_table(&entries) {
            None => {
                proof {
                    let (i, j) = choose|i: int, j: int|
                        0 <= i < j < entries@.len() && (#[trigger] entries@[i]).word@ == (
                        #[trigger] entries@[j]).word@;
                    assert(es[i].0 == es[j].0);
                }
                Err(VocabError::DuplicateWord)
            },
            Some(t) => {
                proof {
                    assert forall|i: int, j: int| 0 <= i < j < es.len() implies (
                    #[trigger] es[i]).0 != (#[trigger] es[j]).0 by {
                        assert(entries@[i].word@ != entries@[j].word@);
                    }
                }
                let tw = sum_counts_exec(&entries);
                let mut vocab = Vocabulary {
                    words: entries,
                    hash_table: t,
                    train_words: tw,
                    min_reduce: 1,
                    unigram_table: Vec::new(),
                };
                proof {
                    assert(vocab.entries() == es);
                    assert(words_wf(es));
                    assert(vocab.wf());
                }
                init_unigram_table(&mut vocab);
                Ok(vocab)
            },
        }
    }
}

/// Total count over the entries, as a machine number.
fn sum_counts_exec(ws: &Vec<WordEntry>) -> (r: u64)
    requires
        ws@.len() <= VOCAB_HASH_TABLE_SIZE,
    ensures
        r == sum_counts(entries_view(ws@)),
{
    let ghost es = entries_view(ws@);
    proof {
        lemma_sum_counts_bound(es);
    }
    let mut tw: u64 = 0;
    let mut i: usize = 0;
    while i < ws.len()
        invariant
            i <= ws@.len() <= VOCAB_HASH_TABLE_SIZE,
            es == entries_view(ws@),
            tw == sum_counts(es.subrange(0, i as int)),
            tw <= i * (u32::MAX as int),
        decreases ws@.len() - i,
    {
        proof {
            assert(es.subrange(0, (i + 1) as int).drop_last() =~= es.subrange(0, i as int));
            assert(es.subrange(0, (i + 1) as int).last() == es[i as int]);
            assert(es[i as int].1 == ws@[i as int].count);
            assert(tw + es[i as int].1 <= (i + 1) * (u32::MAX as int)) by (nonlinear_arith)
                requires
                    tw <= i * (u32::MAX as int),
                    0 <= es[i as int].1 <= u32::MAX as int,
                    i >= 0,
            ;
            assert((i + 1) * (u32::MAX as int) <= VOCAB_HASH_TABLE_SIZE as int * (
            u32::MAX as int)) by (nonlinear_arith)
                requires
                    i + 1 <= VOCAB_HASH_TABLE_SIZE as int,
            ;
        }
        tw = tw + ws[i].count as u64;
        i = i + 1;
    }
    proof {
        assert(es.subrange(0, ws@.len() as int) =~= es);
    }
    tw
}

/// A frequency vocabulary: dense entries, their open-addressed hash
/// index, the total count of matched occurrences, the current pruning
/// threshold, and the unigram sampling table (built once, at the end).
pub struct Vocabulary {
    words: Vec<WordEntry>,
    hash_table: Vec<i32>,
    train_words: u64,
    min_reduce: u32,
    unigram_table: Vec<i32>,
}

impl Vocabulary {
    /// The entry sequence: each word's bytes and count, by wordID.
    pub closed spec fn entries(self) -> Seq<(Seq<u8>, u32)> {
        entries_view(self.words@)
    }

    /// The total occurrence count over all retained entries.
    pub closed spec fn train_words_spec(self) -> u64 {
        self.train_words
    }

    /// The pruning threshold: 1 until a pruning pass runs.
    pub closed spec fn min_reduce_spec(self) -> u32 {
        self.min_reduce
    }

    /// The unigram sampling table has been built.
    pub closed spec fn has_unigram(self) -> bool {
        self.unigram_table@.len() == UNIGRAM_TABLE_SIZE
    }

    pub open spec fn contains_word(self, w: Seq<u8>) -> bool {
        exists|j: int| 0 <= j < self.entries().len() && (#[trigger] self.entries()[j]).0 == w
    }

    /// The structural invariant: a consistent hash index over distinct,
    /// well-formed words, within the pruning bound, with the unigram
    /// table either absent or complete and pointing at valid wordIDs.
    pub closed spec fn wf(self) -> bool {
        &&& table_wf(self.hash_table@, self.words@)
        &&& words_wf(self.entries())
        &&& self.words@.len() <= VOCAB_MAX_WORDS as int
        &&& (self.unigram_table@.len() == 0 || self.unigram_table@.len() == UNIGRAM_TABLE_SIZE)
        &&& forall|i: int|
            0 <= i < self.unigram_table@.len() ==> 0 <= #[trigger] self.unigram_table@[i]
                < self.words@.len()
    }

    fn new() -> (r: Vocabulary)
        ensures
            r.wf(),
            r.entries() == Seq::<(Seq<u8>, u32)>::empty(),
            r.train_words_spec() == 0,
            r.min_reduce_spec() == 1,
            !r.has_unigram(),
    {
        let r = Vocabulary {
            words: Vec::new(),
            hash_table: fresh_table(),
            train_words: 0,
            min_reduce: 1,
            unigram_table: Vec::new(),
        };
        proof {
            assert(r.entries() =~= Seq::<(Seq<u8>, u32)>::empty());
        }
        r
    }

    /// Looks `word` up by linear probing: its wordID, or `-1` exactly
    /// when no entry holds the word.
    pub fn search_word(&self, word: &Vec<u8>) -> (r: i32)
        requires
            self.wf(),
        ensures
            -1 <= r < self.entries().len(),
            r >= 0 ==> self.entries()[r as int].0 == word@,
            r == -1 ==> !self.contains_word(word@),
            r == word_id_of(self.entries(), word@),
    {
        let (j, _s) = find_slot(
            &self.hash_table,
            &self.words,
            word,
            Ghost(self.words@.len() as int),
        );
        proof {
            assert(self.entries().len() == self.words@.len());
            if j >= 0 {
                assert(self.entries()[j as int].0 == word@);
                let k = choose|k: int|
                    0 <= k < self.entries().len() && (#[trigger] self.entries()[k]).0 == word@;
                // The words are pairwise distinct, so the index is the one.
                assert(word_id_of(self.entries(), word@) == k);
                if k != j {
                    assert(self.entries()[k].0 != self.entries()[j as int].0);
                }
            } else {
                assert forall|k: int|
                    0 <= k < self.entries().len() implies (#[trigger] self.entries()[k]).0
                    != word@ by {
                    assert(self.words@[k].word@ != word@);
                }
            }
        }
        j
    }

    /// Number of entries (distinct retained words).
    pub fn len(&self) -> (r: usize)
        ensures
            r == self.entries().len(),
    {
        self.words.len()
    }

    #[must_use]
    pub fn is_empty(&self) -> (r: bool)
        ensures
            r == (self.entries().len() == 0),
    {
        self.len() == 0
    }

    /// The total occurrence count over all retained entries.
    pub fn train_words(&self) -> (r: u64)
        ensures
            r == self.train_words_spec(),
    {
        self.train_words
    }

    /// The word of entry `id`, as bytes.
    pub fn word_at(&self, id: usize) -> (r: &Vec<u8>)
        requires
            id < self.entries().len(),
        ensures
            r@ == self.entries()[id as int].0,
    {
        &self.words[id].word
    }

    /// The count of entry `id`.
    pub fn count_at(&self, id: usize) -> (r: u32)
        requires
            id < self.entries().len(),
        ensures
            r == self.entries()[id as int].1,
    {
        self.words[id].count
    }

    /// Rebuilds the hash index from scratch over the current entries and
    /// recomputes the total occurrence count from their counts.
    fn rebuild_hashtable(&mut self)
        requires
            words_wf(entries_view(old(self).words@)),
            old(self).words@.len() <= VOCAB_HASH_TABLE_SIZE,
        ensures
            final(self).words == old(self).words,
            final(self).min_reduce == old(self).min_reduce,
            final(self).unigram_table == old(self).unigram_table,
            table_wf(final(self).hash_table@, final(self).words@),
            final(self).train_words == sum_counts(entries_view(final(self).words@)),
    {
        proof {
            lemma_sum_counts_bound(entries_view(self.words@));
        }
        match build_table(&self.words) {
            Some(t) => {
                self.hash_table = t;
            },
            None => {
                proof {
                    // Duplicate words contradict well-formedness.
                    let (i, j) = choose|i: int, j: int|
                        0 <= i < j < self.words@.len() && (#[trigger] self.words@[i]).word@ == (
                        #[trigger] self.words@[j]).word@;
                    assert(entries_view(self.words@)[i].0 == entries_view(self.words@)[j].0);
                    assert(false);
                }
            },
        }
        let tw = sum_counts_exec(&self.words);
        self.train_words = tw;
    }

    /// One pruning pass: drop every non-sentinel entry whose count is at
    /// most the current threshold, compact, raise the threshold, and
    /// rebuild the hash index from scratch.
    fn reduce_vocab(&mut self)
        requires
            table_wf(old(self).hash_table@, old(self).words@),
            words_wf(entries_view(old(self).words@)),
            1 <= old(self).words@.len() <= VOCAB_MAX_WORDS + 1,
            old(self).unigram_table@.len() == 0,
        ensures
            ({
                let es = entries_view(old(self).words@);
                let es2 = entries_view(final(self).words@);
                &&& es2 == seq![es[0]] + retained(es.subrange(1, es.len() as int), old(
                    self,
                ).min_reduce)
                &&& final(self).min_reduce == (if old(self).min_reduce < u32::MAX {
                    (old(self).min_reduce + 1) as u32
                } else {
                    u32::MAX
                })
                &&& (old(self).min_reduce == u32::MAX ==> es2.len() == 1)
                &&& table_wf(final(self).hash_table@, final(self).words@)
                &&& words_wf(es2)
                &&& 1 <= es2.len() <= es.len()
                &&& final(self).unigram_table@.len() == 0
                &&& final(self).train_words == sum_counts(es2)
            }),
    {
        let ghost es = entries_view(self.words@);
        let thr = self.min_reduce;
        let mut kept: Vec<WordEntry> = Vec::new();
        kept.push(
            WordEntry { word: clone_bytes(&self.words[0].word), count: self.words[0].count },
        );
        proof {
            assert(entries_view(kept@) =~= seq![es[0]] + retained(
                es.subrange(1, 1),
                thr,
            ));
        }
        let mut i: usize = 1;
        while i < self.words.len()
            invariant
                1 <= i <= self.words@.len(),
                es == entries_view(self.words@),
                thr == self.min_reduce,
                entries_view(kept@) == seq![es[0]] + retained(es.subrange(1, i as int), thr),
            decreases self.words@.len() - i,
        {
            let ghost pre = entries_view(kept@);
            proof {
                assert(es.subrange(1, (i + 1) as int).drop_last() =~= es.subrange(1, i as int));
                assert(es.subrange(1, (i + 1) as int).last() == es[i as int]);
                assert(es[i as int] == (self.words@[i as int].word@, self.words@[i as int].count));
            }
            if self.words[i].count > thr {
                kept.push(
                    WordEntry {
                        word: clone_bytes(&self.words[i].word),
                        count: self.words[i].count,
                    },
                );
                proof {
                    assert(entries_view(kept@) =~= pre.push(es[i as int]));
                    assert(entries_view(kept@) =~= seq![es[0]] + retained(
                        es.subrange(1, (i + 1) as int),
                        thr,
                    ));
                }
            } else {
                proof {
                    assert(entries_view(kept@) =~= seq![es[0]] + retained(
                        es.subrange(1, (i + 1) as int),
                        thr,
                    ));
                }
            }
            i = i + 1;
        }
        proof {
            assert(es.subrange(1, self.words@.len() as int) =~= es.subrange(1, es.len() as int));
        }
        self.words = kept;
        self.min_reduce = if thr < u32::MAX {
            thr + 1
        } else {
            thr
        };
        proof {
            let tail = es.subrange(1, es.len() as int);
            lemma_retained_embed(tail, thr);
            let es2 = entries_view(self.words@);
            // Well-formedness carries over from the original entries.
            assert forall|a: int, b: int| 0 <= a < b < es2.len() implies (#[trigger] es2[a]).0 != (
            #[trigger] es2[b]).0 by {
                if a == 0 {
                    let j = choose|j: int|
                        0 <= j < tail.len() && #[trigger] retained(tail, thr)[b - 1] == tail[j];
                    assert(es2[b] == es[j + 1]);
                    assert(es2[0] == es[0]);
                } else {
                    let (j1, j2) = choose|j1: int, j2: int|
                        0 <= j1 < j2 < tail.len() && #[trigger] retained(tail, thr)[a - 1]
                            == tail[j1] && #[trigger] retained(tail, thr)[b - 1] == tail[j2];
                    assert(es2[a] == es[j1 + 1] && es2[b] == es[j2 + 1]);
                }
            }
            assert forall|a: int| 0 <= a < es2.len() implies {
                &&& (#[trigger] es2[a]).0.len() >= 1
                &&& es2[a].1 >= 1
                &&& forall|k: int| 0 <= k < es2[a].0.len() ==> (#[trigger] es2[a].0[k]) != 32
                    && es2[a].0[k] != 10
            } by {
                if a == 0 {
                    assert(es2[0] == es[0]);
                } else {
                    let j = choose|j: int|
                        0 <= j < tail.len() && #[trigger] retained(tail, thr)[a - 1] == tail[j];
                    assert(es2[a] == es[j + 1]);
                }
            }
            if thr == u32::MAX {
                lemma_retained_none(tail);
            }
            assert(es2.len() <= es.len()) by {
                lemma_retained_len(tail, thr);
            }
        }
        self.rebuild_hashtable();
    }

    /// Sorts the non-sentinel entries descending by count — stably, so
    /// equal counts keep their insertion order — drops those counted
    /// fewer than `min_count` times, and rebuilds the hash index and
    /// the total occurrence count.
    fn sort_vocab(&mut self, min_count: u32)
        requires
            table_wf(old(self).hash_table@, old(self).words@),
            words_wf(entries_view(old(self).words@)),
            1 <= old(self).words@.len() <= VOCAB_MAX_WORDS,
            old(self).unigram_table@.len() == 0,
        ensures
            ({
                let es = entries_view(old(self).words@);
                let es2 = entries_view(final(self).words@);
                &&& 1 <= es2.len() <= es.len()
                &&& es2[0] == es[0]
                &&& forall|i: int, j: int| 1 <= i < j < es2.len() ==> (#[trigger] es2[i]).1 >= (#[trigger] es2[j]).1
                &&& forall|i: int| 1 <= i < es2.len() ==> (#[trigger] es2[i]).1 >= min_count
                &&& forall|e: (Seq<u8>, u32)|
                    #[trigger] es2.subrange(1, es2.len() as int).to_multiset().count(e) == (
                    if e.1 >= min_count {
                        es.subrange(1, es.len() as int).to_multiset().count(e)
                    } else {
                        0
                    })
                &&& forall|i: int, j: int|
                    1 <= i < j < es2.len() && (#[trigger] es2[i]).1 == (#[trigger] es2[j]).1
                        ==> exists|p: int, q: int|
                        1 <= p < q < es.len() && es[p] == es2[i] && es[q] == es2[j]
                &&& table_wf(final(self).hash_table@, final(self).words@)
                &&& words_wf(es2)
                &&& final(self).unigram_table@.len() == 0
                &&& final(self).min_reduce == old(self).min_reduce
                &&& final(self).train_words == sum_counts(es2)
            }),
    {
        broadcast use vstd::seq_lib::group_to_multiset_ensures;
        broadcast use vstd::multiset::group_multiset_axioms;

        let ghost es = entries_view(self.words@);
        let ghost ms0 = es.subrange(1, es.len() as int).to_multiset();
        let ghost sentinel = es[0];
        // Insert each non-sentinel entry, in order, at its place in a
        // descending run: a new entry goes after every entry counted at
        // least as often, which keeps equal counts in insertion order.
        let mut sorted: Vec<WordEntry> = Vec::new();
        proof {
            assert(entries_view(sorted@) =~= Seq::<(Seq<u8>, u32)>::empty());
            assert(es.subrange(1, 1).to_multiset() =~= Seq::<(Seq<u8>, u32)>::empty()
                .to_multiset());
        }
        let mut i: usize = 1;
        while i < self.words.len()
            invariant
                1 <= i <= self.words@.len(),
                self.unigram_table@.len() == 0,
                self.min_reduce == old(self).min_reduce,
                self.words == old(self).words,
                es == entries_view(self.words@),
                words_wf(es),
                sorted@.len() == i - 1,
                entries_view(sorted@).to_multiset() == es.subrange(1, i as int).to_multiset(),
                forall|a: int, b: int|
                    0 <= a < b < sorted@.len() ==> (#[trigger] sorted@[a]).count >= (
                    #[trigger] sorted@[b]).count,
                forall|a: int|
                    0 <= a < sorted@.len() ==> exists|p: int|
                        1 <= p < i && #[trigger] entries_view(sorted@)[a] == es[p],
                forall|a: int, b: int|
                    0 <= a < b < sorted@.len() && (#[trigger] entries_view(sorted@)[a]).1 == (
                    #[trigger] entries_view(sorted@)[b]).1 ==> exists|p: int, q: int|
                        1 <= p < q < i && es[p] == entries_view(sorted@)[a] && es[q]
                            == entries_view(sorted@)[b],
                forall|a: int, b: int|
                    0 <= a < b < sorted@.len() ==> (#[trigger] entries_view(sorted@)[a]).0 != (
                    #[trigger] entries_view(sorted@)[b]).0,
                elems_wf(entries_view(sorted@)),
            decreases self.words@.len() - i,
        {
            let e = WordEntry {
                word: clone_bytes(&self.words[i].word),
                count: self.words[i].count,
            };
            proof {
                assert(entry_view(e) == es[i as int]);
            }
            let mut pos: usize = 0;
            while pos < sorted.len() && sorted[pos].count >= e.count
                invariant
                    pos <= sorted@.len(),
                    forall|k: int| 0 <= k < pos ==> (#[trigger] sorted@[k]).count >= e.count,
                decreases sorted@.len() - pos,
            {
                pos = pos + 1;
            }
            let ghost sv = entries_view(sorted@);
            let ghost sv_pre = sorted@;
            sorted.insert(pos, e);
            proof {
                let sv2 = entries_view(sorted@);
                let x = entry_view(e);
                assert(sv2 =~= sv.insert(pos as int, x));
                // Where each element of the new run comes from.
                assert(forall|a: int| 0 <= a < pos ==> #[trigger] sv2[a] == sv[a]);
                assert(sv2[pos as int] == x);
                assert(forall|a: int| pos < a < sv2.len() ==> #[trigger] sv2[a] == sv[a - 1]);
                assert(forall|a: int| 0 <= a < pos ==> #[trigger] sorted@[a] == sv_pre[a]);
                assert(forall|a: int|
                    pos < a < sorted@.len() ==> #[trigger] sorted@[a] == sv_pre[a - 1]);
                // The multiset grows by exactly this entry.
                assert(sv2.to_multiset() == sv.insert(pos as int, x).to_multiset());
                vstd::seq_lib::to_multiset_insert(sv, pos as int, x);
                assert(es.subrange(1, (i + 1) as int) =~= es.subrange(1, i as int).push(
                    es[i as int],
                ));
                vstd::seq_lib::to_multiset_build(es.subrange(1, i as int), es[i as int]);
                // The inserted entry respects the descending order.
                assert forall|a: int, b: int|
                    0 <= a < b < sorted@.len() implies (#[trigger] sorted@[a]).count >= (
                    #[trigger] sorted@[b]).count by {
                    if b > pos && pos < sv_pre.len() {
                        assert(sv_pre[pos as int].count < e.count);
                    }
                }
                // Membership: everything still comes from the prefix.
                assert forall|a: int| 0 <= a < sv2.len() implies exists|p: int|
                    1 <= p < i + 1 && #[trigger] sv2[a] == es[p] by {
                    if a == pos {
                        assert(sv2[a] == es[i as int]);
                    } else {
                        let a0 = if a < pos {
                            a
                        } else {
                            a - 1
                        };
                        assert(sv2[a] == sv[a0]);
                        let p = choose|p: int| 1 <= p < i && #[trigger] sv[a0] == es[p];
                        assert(sv2[a] == es[p]);
                    }
                }
                // Stability: equal counts stand in insertion order. The
                // new entry sits after every equal count (the scan runs
                // past them), and everything after it is counted less.
                assert forall|a: int, b: int|
                    0 <= a < b < sv2.len() && (#[trigger] sv2[a]).1 == (#[trigger] sv2[b]).1
                        implies exists|p: int, q: int|
                        1 <= p < q < i + 1 && es[p] == sv2[a] && es[q] == sv2[b] by {
                    if b == pos {
                        let a0 = a;
                        assert(sv2[a] == sv[a0]);
                        let p = choose|p: int| 1 <= p < i && #[trigger] sv[a0] == es[p];
                        assert(es[p] == sv2[a] && es[i as int] == sv2[b] && p < i);
                    } else if a == pos {
                        // Everything after the insertion point is
                        // counted strictly less: no such pair.
                        assert(sv2[b] == sv[b - 1]);
                        assert(sv_pre[pos as int].count < e.count);
                        assert(sorted@[b] == sv_pre[b - 1]);
                        assert(sv_pre[b - 1].count <= sv_pre[pos as int].count);
                        assert(false);
                    } else {
                        let a0 = if a < pos {
                            a
                        } else {
                            a - 1
                        };
                        let b0 = if b < pos {
                            b
                        } else {
                            b - 1
                        };
                        assert(sv2[a] == sv[a0] && sv2[b] == sv[b0]);
                        assert(0 <= a0 < b0 < sv.len());
                        let (p, q) = choose|p: int, q: int|
                            1 <= p < q < i && es[p] == #[trigger] sv[a0] && es[q] == sv[b0];
                        assert(es[p] == sv2[a] && es[q] == sv2[b]);
                    }
                }
                // Distinct words and well-formed elements carry over.
                assert forall|a: int, b: int| 0 <= a < b < sv2.len() implies (#[trigger] sv2[a]).0
                    != (#[trigger] sv2[b]).0 by {
                    if a == pos || b == pos {
                        let c = if a == pos {
                            b
                        } else {
                            a
                        };
                        let c0 = if c < pos {
                            c
                        } else {
                            c - 1
                        };
                        assert(sv2[c] == sv[c0]);
                        let p = choose|p: int| 1 <= p < i && #[trigger] sv[c0] == es[p];
                        // Two different source positions hold different words.
                        assert(es[p].0 != es[i as int].0);
                    } else {
                        let a0 = if a < pos {
                            a
                        } else {
                            a - 1
                        };
                        let b0 = if b < pos {
                            b
                        } else {
                            b - 1
                        };
                        assert(sv2[a] == sv[a0] && sv2[b] == sv[b0]);
                        assert(0 <= a0 < b0 < sv.len());
                        assert(sv[a0].0 != sv[b0].0);
                    }
                }
                assert forall|a: int| 0 <= a < sv2.len() implies {
                    &&& (#[trigger] sv2[a]).0.len() >= 1
                    &&& sv2[a].1 >= 1
                    &&& forall|k: int|
                        0 <= k < sv2[a].0.len() ==> (#[trigger] sv2[a].0[k]) != 32 && sv2[a].0[k]
                            != 10
                } by {
                    if a == pos {
                        assert(sv2[a] == es[i as int]);
                    } else {
                        let a0 = if a < pos {
                            a
                        } else {
                            a - 1
                        };
                        assert(sv2[a] == sv[a0]);
                    }
                }
            }
            i = i + 1;
        }
        // Put the run back after the sentinel.
        let ghost sorted_v = entries_view(sorted@);
        let ghost sorted_snap = sorted@;
        proof {
            assert(es.subrange(1, self.words@.len() as int) =~= es.subrange(1, es.len() as int));
            assert(sorted_v.to_multiset() == ms0);
        }
        self.words.truncate(1);
        proof {
            assert(entries_view(self.words@) =~= seq![sentinel]);
        }
        self.words.append(&mut sorted);
        proof {
            assert(entries_view(self.words@) =~= seq![sentinel] + sorted_v);
        }
        // Cut every entry counted fewer than `min_count` times.
        let mut cut: usize = 1;
        while cut < self.words.len() && self.words[cut].count >= min_count
            invariant
                1 <= cut <= self.words@.len(),
                forall|k: int| 1 <= k < cut ==> (#[trigger] self.words@[k]).count >= min_count,
            decreases self.words@.len() - cut,
        {
            cut = cut + 1;
        }
        let ghost pre_cut = entries_view(self.words@);
        self.words.truncate(cut);
        proof {
            let es2 = entries_view(self.words@);
            assert(es2 =~= pre_cut.subrange(0, cut as int));
            assert(es2[0] == sentinel);
            // Entry views of the run, by position.
            assert(forall|i: int|
                0 <= i < sorted_v.len() ==> #[trigger] pre_cut[i + 1] == sorted_v[i]);
            // The run is descending and the cut splits it at `min_count`.
            assert forall|i: int, j: int| 0 <= i < j < sorted_v.len() implies (
            #[trigger] sorted_v[i]).1 >= (#[trigger] sorted_v[j]).1 by {
                assert(sorted_v[i] == (sorted_snap[i].word@, sorted_snap[i].count));
                assert(sorted_v[j] == (sorted_snap[j].word@, sorted_snap[j].count));
            }
            assert forall|i: int| 0 <= i < cut - 1 implies (#[trigger] sorted_v[i]).1
                >= min_count by {
                assert(pre_cut[i + 1].1 >= min_count);
            }
            assert forall|i: int| (cut - 1) <= i < sorted_v.len() implies (#[trigger] sorted_v[i]).1
                < min_count by {
                if cut < pre_cut.len() {
                    assert(pre_cut[cut as int].1 < min_count);
                    assert(sorted_v[cut - 1].1 < min_count);
                    if i > cut - 1 {
                        assert(sorted_v[cut - 1].1 >= sorted_v[i].1);
                    }
                }
            }
            // The kept tail is the descending run's qualifying prefix.
            assert(es2.subrange(1, es2.len() as int) =~= sorted_v.subrange(0, cut - 1));
            lemma_sorted_cut_multiset(sorted_v, cut - 1, min_count);
            // Stability: kept equal-count pairs still witness their
            // insertion order in the original entries.
            assert forall|a: int, b: int|
                1 <= a < b < es2.len() && (#[trigger] es2[a]).1 == (#[trigger] es2[b]).1 implies
                exists|p: int, q: int|
                    1 <= p < q < es.len() && es[p] == es2[a] && es[q] == es2[b] by {
                assert(es2[a] == pre_cut[a] && pre_cut[a] == sorted_v[a - 1]);
                assert(es2[b] == pre_cut[b] && pre_cut[b] == sorted_v[b - 1]);
                assert(sorted_v[a - 1].1 == sorted_v[b - 1].1);
                let (p, q) = choose|p: int, q: int|
                    1 <= p < q < es.len() && es[p] == #[trigger] sorted_v[a - 1] && es[q]
                        == sorted_v[b - 1];
                assert(es[p] == es2[a] && es[q] == es2[b]);
            }
            // Well-formedness of the final entries.
            assert(words_wf(es2));
            assert(es2.len() <= es.len()) by {
                assert(sorted_v.to_multiset().len() == ms0.len());
                assert(sorted_v.len() == sorted_v.to_multiset().len());
                assert(es.subrange(1, es.len() as int).len() == ms0.len());
            }
        }
        self.rebuild_hashtable();
    }

    /// Records one occurrence of `word`: bumps its count, or appends it
    /// as a new entry (wordID = previous length). When the distinct-word
    /// count exceeds the pruning threshold, pruning passes run until it
    /// fits again; wordIDs then change, and `-1` is returned instead.
    ///
    /// A count at `u32::MAX` saturates rather than overflowing, and the
    /// running occurrence total is recomputed from the counts at each
    /// index rebuild rather than bumped per call — observably the same
    /// once learning ends.
    fn add_word(&mut self, word: Vec<u8>) -> (r: i32)
        requires
            old(self).wf(),
            !old(self).has_unigram(),
            word@.len() >= 1,
            forall|k: int| 0 <= k < word@.len() ==> #[trigger] word@[k] != 32 && word@[k] != 10,
        ensures
            final(self).wf(),
            !final(self).has_unigram(),
            ({
                let es = old(self).entries();
                let es2 = final(self).entries();
                if old(self).contains_word(word@) {
                    &&& 0 <= r < es.len()
                    &&& es[r as int].0 == word@
                    &&& es2 == es.update(r as int, (word@, sat_inc(es[r as int].1)))
                    &&& final(self).min_reduce == old(self).min_reduce
                } else if es.len() < VOCAB_MAX_WORDS {
                    &&& r == es.len()
                    &&& es2 == es.push((word@, 1))
                    &&& final(self).min_reduce == old(self).min_reduce
                } else {
                    &&& r == -1
                    &&& final(self).min_reduce >= old(self).min_reduce
                    &&& final(self).min_reduce > old(self).min_reduce || old(self).min_reduce
                        == u32::MAX
                    &&& 1 <= es2.len()
                    &&& es2[0] == es[0]
                    &&& forall|k: int|
                        0 <= k < es2.len() ==> exists|j: int|
                            0 <= j < es.len() + 1 && #[trigger] es2[k] == es.push((word@, 1))[j]
                }
            }),
    {
        let len = self.words.len();
        let (found, s) = find_slot(&self.hash_table, &self.words, &word, Ghost(len as int));
        if found >= 0 {
            let j = found as usize;
            proof {
                assert(self.entries()[found as int].0 == word@);
            }
            let e = vstd::std_specs::vec::vec_index_mut(&mut self.words, j);
            if e.count < u32::MAX {
                e.count = e.count + 1;
            }
            proof {
                let es = old(self).entries();
                assert(entries_view(self.words@) =~= es.update(
                    found as int,
                    (word@, sat_inc(es[found as int].1)),
                ));
                // Only a count changed: probing still finds every word.
                assert forall|jj: int|
                    0 <= jj < self.words@.len() implies word_reachable(
                    self.hash_table@,
                    self.words@,
                    jj,
                ) by {
                    assert(word_reachable(old(self).hash_table@, old(self).words@, jj));
                    let h = word_hash(old(self).words@[jj].word@);
                    let off_j = choose|off_j: int|
                        {
                            &&& 0 <= off_j < VOCAB_HASH_TABLE_SIZE as int
                            &&& #[trigger] old(self).hash_table@[slot(h, off_j)] == jj
                            &&& forall|o2: int|
                                0 <= o2 < off_j ==> old(self).hash_table@[slot(
                                    h,
                                    #[trigger] (o2 + 0),
                                )] != -1
                        };
                    assert(self.words@[jj].word@ == old(self).words@[jj].word@);
                }
            }
            return found;
        }
        proof {
            assert forall|j: int|
                0 <= j < old(self).entries().len() implies (#[trigger] old(self).entries()[
                j]).0 != word@ by {
                assert(old(self).words@[j].word@ != word@);
            }
        }
        let ghost t0 = self.hash_table@;
        let ghost w0 = self.words@;
        self.words.push(WordEntry { word, count: 1 });
        self.hash_table.set(s, len as i32);
        proof {
            lemma_table_partial_push(t0, w0, len as int, self.words@.last());
            assert(self.words@[len as int].word@ == word@);
            assert(word_hash(self.words@[len as int].word@) == word_hash(word@));
            lemma_insert_preserves(t0, self.words@, len as int, s as int);
            assert(entries_view(self.words@) =~= old(self).entries().push((word@, 1)));
        }
        if self.words.len() > VOCAB_MAX_WORDS {
            let ghost es_pushed = entries_view(self.words@);
            let ghost thr0 = self.min_reduce;
            self.reduce_vocab();
            proof {
                lemma_membership_after_reduce(es_pushed, entries_view(self.words@), thr0);
            }
            while self.words.len() > VOCAB_MAX_WORDS
                invariant
                    table_wf(self.hash_table@, self.words@),
                    words_wf(entries_view(self.words@)),
                    1 <= self.words@.len() <= VOCAB_MAX_WORDS + 1,
                    self.unigram_table@.len() == 0,
                    self.min_reduce >= old(self).min_reduce,
                    self.min_reduce > old(self).min_reduce || old(self).min_reduce == u32::MAX,
                    entries_view(self.words@)[0] == es_pushed[0],
                    forall|k: int|
                        0 <= k < entries_view(self.words@).len() ==> exists|j: int|
                            0 <= j < es_pushed.len() && #[trigger] entries_view(self.words@)[k]
                                == es_pushed[j],
                    self.train_words == sum_counts(entries_view(self.words@)),
                decreases u32::MAX - self.min_reduce, self.words@.len(),
            {
                let ghost before = entries_view(self.words@);
                let ghost thr_now = self.min_reduce;
                self.reduce_vocab();
                proof {
                    lemma_membership_after_reduce(before, entries_view(self.words@), thr_now);
                    // Compose membership through this pass.
                    assert forall|k: int|
                        0 <= k < entries_view(self.words@).len() implies exists|j: int|
                            0 <= j < es_pushed.len() && #[trigger] entries_view(self.words@)[k]
                                == es_pushed[j] by {
                        let jb = choose|jb: int|
                            0 <= jb < before.len() && entries_view(self.words@)[k] == before[jb];
                        let j = choose|j: int|
                            0 <= j < es_pushed.len() && before[jb] == es_pushed[j];
                        assert(entries_view(self.words@)[k] == es_pushed[j]);
                    }
                }
            }
            return -1;
        }
        len as i32
    }
}


} // verus!
