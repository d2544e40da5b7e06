//! The decode index: 256 case-folded (word, byte) pairs, partitioned into
//! length-subsets, each subset sorted lexicographically, subsets ordered by
//! ascending word length.
//!
//! The index is built once and is immutable afterwards; the decoder only ever
//! narrows ranges into it. Construction fails — it never silently drops an
//! entry — when the word list does not hold exactly 256 words, when a word
//! case-folds to the empty sequence or to something containing a whitespace
//! character, or when two words collide after case-folding.

use vstd::prelude::*;

use crate::fold::fold_seq;
use crate::fold::fold_of;
use crate::fold::lowercase_chars;
use crate::fold::lemma_fold_seq_add;
use crate::wordlist::WordlistEntry;
use crate::wordlist::lex_le;
use crate::wordlist::lex_lt;
use crate::wordlist::lemma_lex_total;
use crate::wordlist::lemma_lex_antisym;
use crate::wordlist::lemma_lex_trans;
use crate::wordlist::lex_le_exec;
use crate::wordlist::word_eq;
use crate::wordlist::has_segment_at_exec;
use crate::wordlist::is_prefix_exec;
use vstd::string::StrSliceExecFns;

verus! {

/// Why a decode index could not be built.
#[derive(Clone, Copy, Debug, PartialEq, Eq, Structural)]
pub enum BuildError {
    /// The word list does not hold exactly 256 words.
    WordCount,
    /// A word case-folds to the empty sequence or contains a whitespace
    /// character after folding, so the decoder could never match it.
    UnusableWord,
    /// Two words of the list coincide after case-folding.
    DuplicateWord,
}

/// A word the decoder can match: non-empty after folding, and free of the
/// whitespace characters that the decoder skips.
pub open spec fn word_ok(w: Seq<char>) -> bool {
    &&& w.len() >= 1
    &&& forall|k: int| 0 <= k < w.len() ==> w[k] != ' ' && w[k] != '\n' && w[k] != '\r'
}

/// All table words of one character length, sorted lexicographically.
pub struct WordlistSubset {
    pub word_len: usize,
    pub words: Vec<WordlistEntry>,
}

impl WordlistSubset {
    /// Subset invariant: non-empty, uniform word length, usable words, and
    /// strictly sorted ascending by case-folded word.
    pub open spec fn wf(self) -> bool {
        &&& self.words@.len() >= 1
        &&& forall|wi: int|
            0 <= wi < self.words@.len() ==> (#[trigger] self.words@[wi]).word@.len()
                == self.word_len
        &&& forall|wi: int| 0 <= wi < self.words@.len() ==> word_ok(self.words@[wi].word@)
        &&& forall|wi: int, wj: int|
            0 <= wi < wj < self.words@.len() ==> lex_lt(
                self.words@[wi].word@,
                self.words@[wj].word@,
            )
    }
}

/// The decode index of one word-list family.
pub struct DecodeIndex {
    pub subsets: Vec<WordlistSubset>,
}

impl DecodeIndex {
    pub open spec fn n_subsets(self) -> int {
        self.subsets@.len() as int
    }

    pub open spec fn n_words(self, si: int) -> int {
        self.subsets@[si].words@.len() as int
    }

    pub open spec fn valid_pos(self, si: int, wi: int) -> bool {
        0 <= si < self.n_subsets() && 0 <= wi < self.n_words(si)
    }

    /// The case-folded word at a position of the index.
    pub open spec fn word(self, si: int, wi: int) -> Seq<char> {
        self.subsets@[si].words@[wi].word@
    }

    /// The byte value at a position of the index.
    pub open spec fn byte_at(self, si: int, wi: int) -> u8 {
        self.subsets@[si].words@[wi].byte
    }

    /// Index invariant: every subset is well-formed and subsets are ordered
    /// by strictly ascending word length.
    pub open spec fn wf(self) -> bool {
        &&& forall|si: int| 0 <= si < self.n_subsets() ==> (#[trigger] self.subsets@[si]).wf()
        &&& forall|si: int, sj: int|
            0 <= si < sj < self.n_subsets() ==> (#[trigger] self.subsets@[si]).word_len < (
            #[trigger] self.subsets@[sj]).word_len
    }

    /// The characters consumed so far match the word at (si, wi): they are a
    /// prefix of it.
    pub open spec fn is_match(self, s: Seq<char>, si: int, wi: int) -> bool {
        self.valid_pos(si, wi) && s.is_prefix_of(self.word(si, wi))
    }

    /// Some table word still matches.
    pub open spec fn some_match(self, s: Seq<char>) -> bool {
        exists|si: int, wi: int| self.is_match(s, si, wi)
    }

    /// No position other than (si, wi) matches.
    pub open spec fn only_match(self, s: Seq<char>, si: int, wi: int) -> bool {
        forall|sj: int, wj: int| self.is_match(s, sj, wj) ==> sj == si && wj == wi
    }

    /// The consumed characters resolve: exactly one table word matches, and
    /// the match is complete, not merely a unique prefix.
    pub open spec fn resolves(self, s: Seq<char>) -> bool {
        exists|si: int, wi: int|
            self.is_match(s, si, wi) && self.word(si, wi).len() == s.len() && self.only_match(
                s,
                si,
                wi,
            )
    }

    /// The byte emitted on resolution.
    pub open spec fn resolved_byte(self, s: Seq<char>) -> u8 {
        let (si, wi) = choose|si: int, wi: int|
            self.is_match(s, si, wi) && self.word(si, wi).len() == s.len() && self.only_match(
                s,
                si,
                wi,
            );
        self.byte_at(si, wi)
    }

    /// Some position of the index carries byte `b`.
    pub open spec fn has_byte(self, b: int) -> bool {
        exists|si: int, wi: int| self.valid_pos(si, wi) && self.byte_at(si, wi) == b
    }

    /// The index is exactly the graph of the 256-entry table `t` (folded
    /// words indexed by byte value).
    pub open spec fn represents(self, t: Seq<Seq<char>>) -> bool {
        &&& t.len() == 256
        &&& forall|si: int, wi: int|
            self.valid_pos(si, wi) ==> #[trigger] self.word(si, wi) == t[self.byte_at(
                si,
                wi,
            ) as int]
        &&& forall|b: int| 0 <= b < 256 ==> self.has_byte(b)
    }

    /// Some position of the index carries exactly the word `w` with byte `b`.
    pub open spec fn has_entry(self, w: Seq<char>, b: u8) -> bool {
        exists|si: int, wi: int|
            self.valid_pos(si, wi) && self.word(si, wi) == w && self.byte_at(si, wi) == b
    }

    /// No table word is a prefix of a table word at another position. This is
    /// what lets the decoder discover word boundaries implicitly; it holds of
    /// the bundled word lists and is checked by `is_prefix_free`.
    pub open spec fn prefix_free(self) -> bool {
        forall|si: int, wi: int, sj: int, wj: int|
            self.valid_pos(si, wi) && self.valid_pos(sj, wj) && (#[trigger] self.word(
                si,
                wi,
            )).is_prefix_of(#[trigger] self.word(sj, wj)) ==> si == sj && wi == wj
    }
}

/// Table order: by folded word length, then lexicographically.
pub open spec fn entry_le(a: WordlistEntry, b: WordlistEntry) -> bool {
    ||| a.word@.len() < b.word@.len()
    ||| (a.word@.len() == b.word@.len() && lex_le(a.word@, b.word@))
}

/// Strict table order.
pub open spec fn entry_lt(a: WordlistEntry, b: WordlistEntry) -> bool {
    entry_le(a, b) && a.word@ != b.word@
}

/// Entries sorted in the (non-strict) table order.
pub open spec fn entries_sorted(s: Seq<WordlistEntry>) -> bool {
    forall|i: int, j: int| 0 <= i < j < s.len() ==> entry_le(s[i], s[j])
}

pub proof fn lemma_entry_le_total(a: WordlistEntry, b: WordlistEntry)
    ensures
        entry_le(a, b) || entry_le(b, a),
{
    lemma_lex_total(a.word@, b.word@);
}

pub proof fn lemma_entry_le_trans(a: WordlistEntry, b: WordlistEntry, c: WordlistEntry)
    requires
        entry_le(a, b),
        entry_le(b, c),
    ensures
        entry_le(a, c),
{
    if a.word@.len() == b.word@.len() && b.word@.len() == c.word@.len() {
        lemma_lex_trans(a.word@, b.word@, c.word@);
    }
}

pub proof fn lemma_entry_lt_trans(a: WordlistEntry, b: WordlistEntry, c: WordlistEntry)
    requires
        entry_lt(a, b),
        entry_lt(b, c),
    ensures
        entry_lt(a, c),
{
    lemma_entry_le_trans(a, b, c);
    if a.word@ == c.word@ {
        // Then a <= b <= a with equal lengths, so b equals both.
        lemma_lex_antisym(a.word@, b.word@);
    }
}

/// In a sorted entry sequence whose adjacent words all differ, every pair of
/// positions is strictly ordered.
proof fn lemma_adjacent_strict_pair(s: Seq<WordlistEntry>, i: int, j: int)
    requires
        entries_sorted(s),
        forall|k: int| 0 <= k < s.len() - 1 ==> (#[trigger] s[k]).word@ != s[k + 1].word@,
        0 <= i < j < s.len(),
    ensures
        entry_lt(s[i], s[j]),
    decreases j - i,
{
    if j == i + 1 {
        assert(entry_le(s[i], s[j]));
    } else {
        lemma_adjacent_strict_pair(s, i, j - 1);
        lemma_adjacent_strict_pair(s, j - 1, j);
        lemma_entry_lt_trans(s[i], s[j - 1], s[j]);
    }
}

/// The case-folded table: folded words indexed by byte value.
pub open spec fn fold_table(ws: Seq<&str>) -> Seq<Seq<char>> {
    ws.map_values(|w: &str| fold_seq(w@))
}

/// Every folded word of the table is usable by the decoder.
pub open spec fn table_words_ok(t: Seq<Seq<char>>) -> bool {
    forall|i: int| 0 <= i < t.len() ==> word_ok(#[trigger] t[i])
}

/// The folded words of the table are pairwise distinct.
pub open spec fn table_distinct(t: Seq<Seq<char>>) -> bool {
    forall|i: int, j: int| 0 <= i < j < t.len() ==> t[i] != t[j]
}

/// Case-folds a word given as a string slice.
fn fold_str(s: &str) -> (r: Vec<char>)
    ensures
        r@ == fold_seq(s@),
{
    let n = s.unicode_len();
    let mut r: Vec<char> = Vec::new();
    let mut i: usize = 0;
    proof {
        assert(s@.take(0) =~= Seq::<char>::empty());
    }
    while i < n
        invariant
            n == s@.len(),
            i <= n,
            r@ == fold_seq(s@.take(i as int)),
        decreases n - i,
    {
        let c = s.get_char(i);
        let mut f = lowercase_chars(c);
        proof {
            assert(s@.take(i + 1) =~= s@.take(i as int) + seq![s@[i as int]]);
            lemma_fold_seq_add(s@.take(i as int), seq![s@[i as int]]);
            let one = seq![s@[i as int]];
            assert(one.len() == 1 && one[0] == s@[i as int]);
            assert(one.drop_first() =~= Seq::<char>::empty());
            assert(fold_seq(one) == fold_of(one[0]) + fold_seq(one.drop_first()));
            assert(fold_seq(Seq::<char>::empty()) =~= Seq::<char>::empty());
            assert(fold_seq(one) =~= fold_of(s@[i as int]));
        }
        r.append(&mut f);
        i = i + 1;
    }
    proof {
        assert(s@.take(n as int) =~= s@);
    }
    r
}

/// Tests whether a folded word is usable by the decoder.
fn word_ok_exec(w: &Vec<char>) -> (r: bool)
    ensures
        r == word_ok(w@),
{
    if w.len() == 0 {
        return false;
    }
    let mut i: usize = 0;
    while i < w.len()
        invariant
            i <= w@.len(),
            w@.len() >= 1,
            forall|k: int| 0 <= k < i ==> w@[k] != ' ' && w@[k] != '\n' && w@[k] != '\r',
        decreases w@.len() - i,
    {
        let c = w[i];
        if c == ' ' || c == '\n' || c == '\r' {
            return false;
        }
        i = i + 1;
    }
    true
}

/// Compares two entries in the table order.
fn entry_le_exec(a: &WordlistEntry, b: &WordlistEntry) -> (r: bool)
    ensures
        r == entry_le(*a, *b),
{
    if a.word.len() < b.word.len() {
        true
    } else if a.word.len() == b.word.len() {
        lex_le_exec(&a.word, &b.word)
    } else {
        false
    }
}

/// Finds the position at which an entry keeps an entry vector table-ordered.
fn insert_pos(entries: &Vec<WordlistEntry>, e: &WordlistEntry) -> (p: usize)
    requires
        entries_sorted(entries@),
    ensures
        p <= entries@.len(),
        forall|i: int| 0 <= i < p ==> entry_le(#[trigger] entries@[i], *e),
        p < entries@.len() ==> entry_le(*e, entries@[p as int]),
{
    let mut lo: usize = 0;
    while lo < entries.len()
        invariant
            lo <= entries@.len(),
            entries_sorted(entries@),
            forall|i: int| 0 <= i < lo ==> entry_le(#[trigger] entries@[i], *e),
        decreases entries@.len() - lo,
    {
        if !entry_le_exec(&entries[lo], e) {
            proof {
                lemma_entry_le_total(entries@[lo as int], *e);
            }
            return lo;
        }
        lo = lo + 1;
    }
    lo
}

/// Inserts an entry into a table-ordered entry vector, keeping the order.
fn sorted_insert(entries: &mut Vec<WordlistEntry>, e: WordlistEntry)
    requires
        entries_sorted(old(entries)@),
        old(entries)@.len() < usize::MAX,
    ensures
        exists|p: int|
            0 <= p <= old(entries)@.len() && final(entries)@ == old(entries)@.insert(p, e),
        entries_sorted(final(entries)@),
{
    let ghost e0 = entries@;
    let lo = insert_pos(entries, &e);
    let ghost p = lo as int;
    entries.insert(lo, e);
    proof {
        e0.insert_ensures(p, e);
        assert(entries@ == e0.insert(p, e));
        assert forall|i: int, j: int|
            0 <= i < j < entries@.len() implies entry_le(entries@[i], entries@[j]) by {
            if j < p {
                assert(entries@[i] == e0[i] && entries@[j] == e0[j]);
            } else if j == p {
                assert(entries@[i] == e0[i]);
                assert(entries@[j] == e);
            } else {
                // j > p
                if i < p {
                    assert(entries@[i] == e0[i] && entries@[j] == e0[j - 1]);
                } else if i == p {
                    assert(entries@[i] == e && entries@[j] == e0[j - 1]);
                    assert(entry_le(e, e0[p]));
                    if j - 1 > p {
                        lemma_entry_le_trans(e, e0[p], e0[j - 1]);
                    }
                } else {
                    assert(entries@[i] == e0[i - 1] && entries@[j] == e0[j - 1]);
                }
            }
        }
    }
}

/// The entries of a subset sequence, flattened in order.
pub open spec fn subsets_flat(subsets: Seq<WordlistSubset>) -> Seq<WordlistEntry>
    decreases subsets.len(),
{
    if subsets.len() == 0 {
        Seq::empty()
    } else {
        subsets_flat(subsets.drop_last()) + subsets.last().words@
    }
}

/// Locates the subset position holding a given flattened position.
pub proof fn lemma_flat_to_pos(subsets: Seq<WordlistSubset>, i: int) -> (pos: (int, int))
    requires
        0 <= i < subsets_flat(subsets).len(),
    ensures
        ({
            let (si, wi) = pos;
            0 <= si < subsets.len() && 0 <= wi < subsets[si].words@.len() && subsets[si].words@[wi]
                == subsets_flat(subsets)[i]
        }),
    decreases subsets.len(),
{
    let head = subsets_flat(subsets.drop_last());
    if i < head.len() {
        let (si, wi) = lemma_flat_to_pos(subsets.drop_last(), i);
        assert(subsets.drop_last()[si] == subsets[si]);
        (si, wi)
    } else {
        let si = subsets.len() - 1;
        let wi = i - head.len();
        assert(subsets_flat(subsets)[i] == subsets.last().words@[wi]);
        (si, wi)
    }
}

/// Locates the flattened position holding a given subset position.
pub proof fn lemma_pos_to_flat(subsets: Seq<WordlistSubset>, si: int, wi: int) -> (i: int)
    requires
        0 <= si < subsets.len(),
        0 <= wi < subsets[si].words@.len(),
    ensures
        0 <= i < subsets_flat(subsets).len(),
        subsets_flat(subsets)[i] == subsets[si].words@[wi],
    decreases subsets.len(),
{
    let head = subsets_flat(subsets.drop_last());
    if si == subsets.len() - 1 {
        assert(subsets_flat(subsets)[head.len() + wi] == subsets.last().words@[wi]);
        head.len() + wi
    } else {
        assert(subsets.drop_last()[si] == subsets[si]);
        let i = lemma_pos_to_flat(subsets.drop_last(), si, wi);
        assert(subsets_flat(subsets)[i] == head[i]);
        i
    }
}

/// Groups a strictly table-ordered entry list into length-subsets.
fn group_entries(entries: Vec<WordlistEntry>) -> (r: Vec<WordlistSubset>)
    requires
        forall|i: int, j: int|
            0 <= i < j < entries@.len() ==> entry_lt(#[trigger] entries@[i], #[trigger] entries@[j]),
        forall|i: int| 0 <= i < entries@.len() ==> word_ok((#[trigger] entries@[i]).word@),
    ensures
        forall|si: int| 0 <= si < r@.len() ==> (#[trigger] r@[si]).wf(),
        forall|si: int, sj: int|
            0 <= si < sj < r@.len() ==> (#[trigger] r@[si]).word_len < (#[trigger] r@[sj]).word_len,
        subsets_flat(r@) == entries@,
{
    let ghost es = entries@;
    let mut rest = entries;
    let mut subsets: Vec<WordlistSubset> = Vec::new();
    let ghost mut p: int = 0;
    let ghost mut q: int = 0;
    while rest.len() > 0
        invariant
            0 <= p <= es.len(),
            rest@ == es.skip(p),
            forall|i: int, j: int|
                0 <= i < j < es.len() ==> entry_lt(#[trigger] es[i], #[trigger] es[j]),
            forall|i: int| 0 <= i < es.len() ==> word_ok((#[trigger] es[i]).word@),
            p == 0 ==> subsets@.len() == 0,
            p > 0 ==> subsets@.len() >= 1 && 0 <= q < p && subsets@.last().words@ == es.subrange(
                q,
                p,
            ),
            forall|si: int| 0 <= si < subsets@.len() ==> (#[trigger] subsets@[si]).wf(),
            forall|si: int, sj: int|
                0 <= si < sj < subsets@.len() ==> (#[trigger] subsets@[si]).word_len < (
                #[trigger] subsets@[sj]).word_len,
            subsets_flat(subsets@) == es.take(p),
        decreases rest@.len(),
    {
        proof {
            assert(rest@[0] == es[p]);
        }
        let ghost s0 = subsets@;
        let e = rest.remove(0);
        let wl = e.word.len();
        proof {
            assert(rest@ =~= es.skip(p + 1));
        }
        let n = subsets.len();
        let mut extend = false;
        if n > 0 {
            let last_len = subsets[n - 1].word_len;
            if last_len == wl {
                extend = true;
            }
        }
        if extend {
            // Same folded length: the entry joins the last, open subset.
            let mut sub = subsets.pop().unwrap();
            let ghost w0 = sub.words@;
            sub.words.push(e);
            proof {
                assert(w0 == es.subrange(q, p));
                assert(sub.words@ =~= es.subrange(q, p + 1));
                assert(es.subrange(q, p + 1) =~= es.subrange(q, p).push(es[p]));
                // The extended subset stays well-formed.
                assert forall|wi: int, wj: int|
                    0 <= wi < wj < sub.words@.len() implies lex_lt(
                    sub.words@[wi].word@,
                    sub.words@[wj].word@,
                ) by {
                    assert(sub.words@[wi] == es[q + wi]);
                    assert(sub.words@[wj] == es[q + wj]);
                    assert(entry_lt(es[q + wi], es[q + wj]));
                }
                assert(sub.wf());
            }
            subsets.push(sub);
            proof {
                assert(subsets@ =~= s0.update(s0.len() - 1, sub));
                assert(subsets@.drop_last() =~= s0.drop_last());
                assert(subsets@.last() == sub);
                assert(subsets_flat(subsets@) == subsets_flat(s0.drop_last()) + sub.words@);
                assert(subsets_flat(s0) == subsets_flat(s0.drop_last()) + w0);
                assert(subsets_flat(subsets@) =~= subsets_flat(s0) + seq![es[p]]);
                assert(es.take(p + 1) =~= es.take(p) + seq![es[p]]);
                p = p + 1;
                assert(subsets@.last().words@ == es.subrange(q, p));
            }
        } else {
            // A new folded length opens a new subset.
            proof {
                if p > 0 {
                    let last = subsets@.last();
                    assert(last.words@.last() == es[p - 1]);
                    assert(last.words@.last().word@.len() == last.word_len);
                    assert(entry_lt(es[p - 1], es[p]));
                    assert(last.word_len < wl);
                }
            }
            let mut ws: Vec<WordlistEntry> = Vec::new();
            ws.push(e);
            subsets.push(WordlistSubset { word_len: wl, words: ws });
            proof {
                assert(subsets@.drop_last() =~= s0);
                assert(subsets@.last().words@ =~= seq![es[p]]);
                assert(subsets_flat(subsets@) == subsets_flat(s0) + subsets@.last().words@);
                assert(subsets_flat(subsets@) =~= subsets_flat(s0) + seq![es[p]]);
                assert(es.take(p + 1) =~= es.take(p) + seq![es[p]]);
                q = p;
                p = p + 1;
                assert(subsets@.last().words@ =~= es.subrange(q, p));
                assert(subsets@.last().wf());
            }
        }
    }
    proof {
        assert(es.skip(p).len() == 0);
        assert(p == es.len());
        assert(es.take(p) =~= es);
    }
    subsets
}

/// No folded word of the table is a prefix of a folded word at another
/// byte value.
pub open spec fn table_prefix_free(t: Seq<Seq<char>>) -> bool {
    forall|i: int, j: int|
        0 <= i < t.len() && 0 <= j < t.len() && i != j ==> !(#[trigger] t[i]).is_prefix_of(
            #[trigger] t[j],
        )
}

/// A word list from which a decode table can be built: exactly 256 words,
/// each usable after case-folding, pairwise distinct after case-folding.
pub open spec fn list_valid(ws: Seq<&str>) -> bool {
    &&& ws.len() == 256
    &&& table_words_ok(fold_table(ws))
    &&& table_distinct(fold_table(ws))
}

/// The exact error that building from the word list `ws` reports.
pub open spec fn build_error_spec(ws: Seq<&str>, e: BuildError) -> bool {
    ||| (e == BuildError::WordCount && ws.len() != 256)
    ||| (e == BuildError::UnusableWord && ws.len() == 256 && !table_words_ok(fold_table(ws)))
    ||| (e == BuildError::DuplicateWord && ws.len() == 256 && table_words_ok(fold_table(ws))
        && !table_distinct(fold_table(ws)))
}

/// Some entry of the list carries byte value `bb`.
pub open spec fn byte_present(es: Seq<WordlistEntry>, bb: int) -> bool {
    exists|i: int| 0 <= i < es.len() && (#[trigger] es[i]).byte as int == bb
}

/// Finds a position whose entry shares its folded word with the next one.
fn find_adjacent_dup(entries: &Vec<WordlistEntry>) -> (r: Option<usize>)
    ensures
        match r {
            Some(i) => i + 1 < entries@.len() && entries@[i as int].word@ == entries@[i
                + 1].word@,
            None => forall|k: int|
                0 <= k < entries@.len() - 1 ==> (#[trigger] entries@[k]).word@ != entries@[k
                    + 1].word@,
        },
{
    if entries.len() == 0 {
        return None;
    }
    let mut i: usize = 0;
    while i < entries.len() - 1
        invariant
            i < entries@.len(),
            entries@.len() >= 1,
            forall|k: int| 0 <= k < i ==> (#[trigger] entries@[k]).word@ != entries@[k + 1].word@,
        decreases entries@.len() - i,
    {
        if word_eq(&entries[i].word, &entries[i + 1].word) {
            return Some(i);
        }
        i = i + 1;
    }
    None
}

impl DecodeIndex {
    /// Builds the decode index of one word-list family: case-folds every
    /// word, groups the 256 (word, byte) pairs by folded length, sorts each
    /// group lexicographically, and orders groups by ascending length.
    ///
    /// Construction is total over valid word lists and fails — never
    /// silently repairing the table — exactly when the list does not hold
    /// 256 words, when a word folds to something the decoder could never
    /// match, or when two words collide after case-folding.
    pub fn build(words: &Vec<&str>) -> (r: Result<DecodeIndex, BuildError>)
        ensures
            match r {
                Ok(ix) => ix.wf() && ix.represents(fold_table(words@)) && list_valid(words@),
                Err(e) => build_error_spec(words@, e),
            },
    {
        let ghost t = fold_table(words@);
        if words.len() != 256 {
            return Err(BuildError::WordCount);
        }
        let mut entries: Vec<WordlistEntry> = Vec::new();
        let mut b: usize = 0;
        while b < 256
            invariant
                words@.len() == 256,
                t == fold_table(words@),
                b <= 256,
                entries@.len() == b,
                entries_sorted(entries@),
                forall|i: int| 0 <= i < b ==> word_ok(#[trigger] t[i]),
                forall|i: int| 0 <= i < entries@.len() ==> word_ok((#[trigger] entries@[i]).word@),
                forall|i: int|
                    0 <= i < entries@.len() ==> ((#[trigger] entries@[i]).byte as int) < b
                        && entries@[i].word@ == t[entries@[i].byte as int],
                forall|bb: int| 0 <= bb < b ==> #[trigger] byte_present(entries@, bb),
                forall|i: int, j: int|
                    0 <= i < j < entries@.len() ==> (#[trigger] entries@[i]).byte != (
                    #[trigger] entries@[j]).byte,
            decreases 256 - b,
        {
            let w: &str = words[b];
            let f = fold_str(w);
            proof {
                assert(t[b as int] == fold_seq(words@[b as int]@));
            }
            if !word_ok_exec(&f) {
                proof {
                    assert(!word_ok(t[b as int]));
                }
                return Err(BuildError::UnusableWord);
            }
            let e = WordlistEntry { word: f, byte: b as u8 };
            proof {
                assert(e.word@ == t[b as int] && e.byte as int == b as int);
            }
            let ghost e0 = entries@;
            sorted_insert(&mut entries, e);
            proof {
                let p = choose|p: int| 0 <= p <= e0.len() && entries@ == e0.insert(p, e);
                e0.insert_ensures(p, e);
                assert(entries@.len() == b + 1);
                assert forall|i: int| 0 <= i < entries@.len() implies word_ok(
                    (#[trigger] entries@[i]).word@,
                ) && ((entries@[i]).byte as int) < b + 1 && entries@[i].word@ == t[entries@[i].byte
                    as int] by {
                    if i < p {
                        assert(entries@[i] == e0[i]);
                    } else if i == p {
                        assert(entries@[i] == e);
                    } else {
                        assert(entries@[i] == e0[i - 1]);
                    }
                }
                assert forall|bb: int| 0 <= bb < b + 1 implies #[trigger] byte_present(
                    entries@,
                    bb,
                ) by {
                    if bb == b {
                        assert(entries@[p] == e);
                        assert(byte_present(entries@, bb));
                    } else {
                        assert(byte_present(e0, bb));
                        let i0 = choose|i: int|
                            0 <= i < e0.len() && (#[trigger] e0[i]).byte as int == bb;
                        if i0 < p {
                            assert(entries@[i0] == e0[i0]);
                        } else {
                            assert(entries@[i0 + 1] == e0[i0]);
                        }
                        assert(byte_present(entries@, bb));
                    }
                }
                assert forall|i: int, j: int| 0 <= i < j < entries@.len() implies (
                #[trigger] entries@[i]).byte != (#[trigger] entries@[j]).byte by {
                    if i < p && j < p {
                        assert(entries@[i] == e0[i] && entries@[j] == e0[j]);
                    } else if i < p && j == p {
                        assert(entries@[i] == e0[i] && entries@[j] == e);
                        assert((e0[i].byte as int) < b);
                    } else if i < p && j > p {
                        assert(entries@[i] == e0[i] && entries@[j] == e0[j - 1]);
                    } else if i == p {
                        assert(entries@[i] == e && entries@[j] == e0[j - 1]);
                        assert((e0[j - 1].byte as int) < b);
                    } else {
                        assert(entries@[i] == e0[i - 1] && entries@[j] == e0[j - 1]);
                    }
                }
            }
            b = b + 1;
        }
        if let Some(d) = find_adjacent_dup(&entries) {
            proof {
                let x = entries@[d as int].byte as int;
                let y = entries@[d + 1].byte as int;
                assert(x != y);
                assert(t[x] == entries@[d as int].word@);
                assert(t[y] == entries@[d + 1].word@);
                assert(t[x] == t[y]);
                assert(!table_distinct(t));
            }
            return Err(BuildError::DuplicateWord);
        }
        proof {
            assert forall|i: int, j: int| 0 <= i < j < entries@.len() implies entry_lt(
                #[trigger] entries@[i],
                #[trigger] entries@[j],
            ) by {
                lemma_adjacent_strict_pair(entries@, i, j);
            }
            assert forall|x: int, y: int| 0 <= x < y < 256 implies t[x] != t[y] by {
                assert(byte_present(entries@, x));
                assert(byte_present(entries@, y));
                let ix = choose|i: int| 0 <= i < entries@.len() && (#[trigger] entries@[i]).byte
                    as int == x;
                let iy = choose|i: int| 0 <= i < entries@.len() && (#[trigger] entries@[i]).byte
                    as int == y;
                assert(ix != iy);
                if ix < iy {
                    assert(entry_lt(entries@[ix], entries@[iy]));
                } else {
                    assert(entry_lt(entries@[iy], entries@[ix]));
                }
                assert(entries@[ix].word@ != entries@[iy].word@);
                assert(t[x] == entries@[ix].word@ && t[y] == entries@[iy].word@);
            }
            assert(table_distinct(t));
        }
        let ghost es_final = entries@;
        let subsets = group_entries(entries);
        let ghost gss = subsets@;
        let ix = DecodeIndex { subsets };
        proof {
            assert(ix.subsets@ == gss);
            assert(ix.wf());
            assert(subsets_flat(gss) == es_final);
            assert forall|si: int, wi: int| ix.valid_pos(si, wi) implies #[trigger] ix.word(si, wi)
                == t[ix.byte_at(si, wi) as int] by {
                let i = lemma_pos_to_flat(gss, si, wi);
                assert(gss[si].words@[wi] == es_final[i]);
            }
            assert forall|bb: int| 0 <= bb < 256 implies ix.has_byte(bb) by {
                assert(byte_present(es_final, bb));
                let i0 = choose|i: int|
                    0 <= i < es_final.len() && (#[trigger] es_final[i]).byte as int == bb;
                let (si, wi) = lemma_flat_to_pos(gss, i0);
                assert(gss[si].words@[wi] == es_final[i0]);
                assert(ix.valid_pos(si, wi) && ix.byte_at(si, wi) as int == bb);
                assert(ix.has_byte(bb));
            }
            assert(ix.represents(t));
        }
        Ok(ix)
    }
}

/// Tests that no word of `a` is a prefix of a word of `b`.
fn no_prefix_into(a: &WordlistSubset, b: &WordlistSubset) -> (r: bool)
    ensures
        r == (forall|wi: int, wj: int|
            0 <= wi < a.words@.len() && 0 <= wj < b.words@.len() ==> !(
            #[trigger] a.words@[wi]).word@.is_prefix_of((#[trigger] b.words@[wj]).word@)),
{
    let mut wi: usize = 0;
    while wi < a.words.len()
        invariant
            wi <= a.words@.len(),
            forall|x: int, y: int|
                0 <= x < wi && 0 <= y < b.words@.len() ==> !(
                #[trigger] a.words@[x]).word@.is_prefix_of((#[trigger] b.words@[y]).word@),
        decreases a.words@.len() - wi,
    {
        let mut wj: usize = 0;
        while wj < b.words.len()
            invariant
                wi < a.words@.len(),
                wj <= b.words@.len(),
                forall|y: int|
                    0 <= y < wj ==> !a.words@[wi as int].word@.is_prefix_of(
                        (#[trigger] b.words@[y]).word@,
                    ),
            decreases b.words@.len() - wj,
        {
            if is_prefix_exec(&a.words[wi].word, &b.words[wj].word) {
                return false;
            }
            wj = wj + 1;
        }
        wi = wi + 1;
    }
    true
}

impl DecodeIndex {
    /// Checks that no table word is a prefix of a table word at another
    /// position. The decoder itself does not need this property, but the
    /// round-trip guarantee rests on it: it is what makes every word
    /// boundary discoverable from uniqueness and completeness alone.
    pub fn is_prefix_free(&self) -> (r: bool)
        requires
            self.wf(),
        ensures
            r == self.prefix_free(),
    {
        let n = self.subsets.len();
        let mut si: usize = 0;
        while si < n
            invariant
                n == self.subsets@.len(),
                si <= n,
                self.wf(),
                forall|x: int, xw: int, y: int, yw: int|
                    0 <= x < si && x < y < n && 0 <= xw < self.n_words(x) && 0 <= yw
                        < self.n_words(y) ==> !(#[trigger] self.word(x, xw)).is_prefix_of(
                        #[trigger] self.word(y, yw),
                    ),
            decreases n - si,
        {
            let mut sj: usize = si + 1;
            while sj < n
                invariant
                    n == self.subsets@.len(),
                    si < sj <= n,
                    si < n,
                    self.wf(),
                    forall|y: int, xw: int, yw: int|
                        si < y < sj && 0 <= xw < self.n_words(si as int) && 0 <= yw < self.n_words(
                            y,
                        ) ==> !(#[trigger] self.word(si as int, xw)).is_prefix_of(
                            #[trigger] self.word(y, yw),
                        ),
                decreases n - sj,
            {
                if !no_prefix_into(&self.subsets[si], &self.subsets[sj]) {
                    proof {
                        let (wi, wj): (int, int) = choose|wi: int, wj: int|
                            0 <= wi < self.subsets@[si as int].words@.len() && 0 <= wj
                                < self.subsets@[sj as int].words@.len() && (
                            #[trigger] self.subsets@[si as int].words@[wi]).word@.is_prefix_of(
                                (#[trigger] self.subsets@[sj as int].words@[wj]).word@,
                            );
                        assert(self.word(si as int, wi).is_prefix_of(self.word(sj as int, wj)));
                        assert(!self.prefix_free());
                    }
                    return false;
                }
                proof {
                    assert forall|y: int, xw: int, yw: int|
                        si < y < sj + 1 && 0 <= xw < self.n_words(si as int) && 0 <= yw
                            < self.n_words(y) implies !(#[trigger] self.word(
                        si as int,
                        xw,
                    )).is_prefix_of(#[trigger] self.word(y, yw)) by {
                        if y == sj {
                            assert(self.word(si as int, xw)
                                == self.subsets@[si as int].words@[xw].word@);
                            assert(self.word(y, yw) == self.subsets@[sj as int].words@[yw].word@);
                        }
                    }
                }
                sj = sj + 1;
            }
            si = si + 1;
        }
        proof {
            assert forall|x: int, xw: int, y: int, yw: int|
                self.valid_pos(x, xw) && self.valid_pos(y, yw) && (#[trigger] self.word(
                    x,
                    xw,
                )).is_prefix_of(#[trigger] self.word(y, yw)) implies x == y && xw == yw by {
                if x == y {
                    if xw != yw {
                        // Same subset: equal lengths, so a prefix is the word itself.
                        assert(self.word(x, xw).len() == self.subsets@[x].word_len);
                        assert(self.word(y, yw).len() == self.subsets@[y].word_len);
                        assert(self.word(y, yw).subrange(0, self.word(x, xw).len() as int) =~= self.word(
                            y,
                            yw,
                        ));
                        assert(self.word(x, xw) == self.word(y, yw));
                        if xw < yw {
                            assert(lex_lt(self.word(x, xw), self.word(y, yw)));
                        } else {
                            assert(lex_lt(self.word(y, yw), self.word(x, xw)));
                        }
                        assert(false);
                    }
                } else if x < y {
                    assert(false);
                } else {
                    // Longer words cannot be prefixes of shorter ones.
                    assert(self.word(x, xw).len() == self.subsets@[x].word_len);
                    assert(self.word(y, yw).len() == self.subsets@[y].word_len);
                    assert(self.subsets@[y].word_len < self.subsets@[x].word_len);
                    assert(false);
                }
            }
            assert(self.prefix_free());
        }
        true
    }
}

/// An index that represents a table is prefix-free exactly when the table
/// is.
pub proof fn lemma_prefix_free_iff(ix: DecodeIndex, t: Seq<Seq<char>>)
    requires
        ix.wf(),
        ix.represents(t),
    ensures
        ix.prefix_free() <==> table_prefix_free(t),
{
    if ix.prefix_free() {
        assert forall|x: int, y: int|
            0 <= x < t.len() && 0 <= y < t.len() && x != y implies !(#[trigger] t[x]).is_prefix_of(
            #[trigger] t[y],
        ) by {
            if t[x].is_prefix_of(t[y]) {
                assert(ix.has_byte(x));
                assert(ix.has_byte(y));
                let (si, wi): (int, int) = choose|si: int, wi: int|
                    ix.valid_pos(si, wi) && ix.byte_at(si, wi) == x;
                let (sj, wj): (int, int) = choose|si: int, wi: int|
                    ix.valid_pos(si, wi) && ix.byte_at(si, wi) == y;
                assert(ix.word(si, wi) == t[x]);
                assert(ix.word(sj, wj) == t[y]);
                assert(ix.word(si, wi).is_prefix_of(ix.word(sj, wj)));
                assert(si == sj && wi == wj);
                assert(false);
            }
        }
    }
    if table_prefix_free(t) {
        assert forall|si: int, wi: int, sj: int, wj: int|
            ix.valid_pos(si, wi) && ix.valid_pos(sj, wj) && (#[trigger] ix.word(
                si,
                wi,
            )).is_prefix_of(#[trigger] ix.word(sj, wj)) implies si == sj && wi == wj by {
            let x = ix.byte_at(si, wi) as int;
            let y = ix.byte_at(sj, wj) as int;
            assert(ix.word(si, wi) == t[x]);
            assert(ix.word(sj, wj) == t[y]);
            if x == y {
                // Same byte, so the two positions hold the same word; two
                // distinct positions cannot, by sortedness and lengths.
                assert(ix.word(si, wi) == ix.word(sj, wj));
                if si == sj {
                    if wi < wj {
                        assert(lex_lt(ix.word(si, wi), ix.word(si, wj)));
                        assert(ix.subsets@[si].wf());
                        assert(false);
                    } else if wj < wi {
                        assert(lex_lt(ix.word(si, wj), ix.word(si, wi)));
                        assert(ix.subsets@[si].wf());
                        assert(false);
                    }
                } else {
                    assert(ix.subsets@[si].wf());
                    assert(ix.subsets@[sj].wf());
                    assert(ix.word(si, wi).len() == ix.subsets@[si].word_len);
                    assert(ix.word(sj, wj).len() == ix.subsets@[sj].word_len);
                    if si < sj {
                        assert(ix.subsets@[si].word_len < ix.subsets@[sj].word_len);
                    } else {
                        assert(ix.subsets@[sj].word_len < ix.subsets@[si].word_len);
                    }
                    assert(false);
                }
            } else {
                assert(!t[x].is_prefix_of(t[y]));
                assert(false);
            }
        }
    }
}

} // verus!
