//! The incremental decoder: the hard half of the codec.
//!
//! A decoder consumes one character at a time. Whitespace is skipped, every
//! other character is case-folded and appended to the characters consumed
//! since the last reset. The decoder keeps the set of table words that the
//! consumed characters could still begin — as ranges into the immutable
//! decode index, narrowed first by word length, then by content — and emits
//! a byte exactly when one word matches completely. A stream whose consumed
//! characters match no table word is invalid data.

use vstd::prelude::*;

use crate::fold::fold_of;
use crate::fold::is_skip;
use crate::fold::lowercase_chars;
use crate::index::BuildError;
use crate::index::DecodeIndex;
use crate::index::build_error_spec;
use crate::index::fold_table;
use crate::index::list_valid;
use crate::words::eff_words;
use crate::words::pgp_three_syllable_words;
use crate::words::pgp_two_syllable_words;
use crate::words::wl_eff_encode;
use crate::words::wl_pgp_encode_three_syllable;
use crate::words::wl_pgp_encode_two_syllable;
use crate::wordlist::has_segment_at_exec;
use crate::wordlist::lex_lt;

verus! {

/// A decoding failure.
#[derive(Clone, Copy, Debug, PartialEq, Eq, Structural)]
pub enum DecodeError {
    /// The consumed characters are a prefix of no table word.
    InvalidData,
}

/// One live range of candidate words: the entries `lo..hi` of subset
/// `subset` of the active decode index.
#[derive(Clone, Copy)]
pub struct CandidateRange {
    pub subset: usize,
    pub lo: usize,
    pub hi: usize,
}

/// Position (si, wi) of the index lies in one of the candidate ranges.
pub open spec fn covered(cands: Seq<CandidateRange>, si: int, wi: int) -> bool {
    exists|k: int|
        0 <= k < cands.len() && (#[trigger] cands[k]).subset == si && cands[k].lo <= wi
            < cands[k].hi
}

/// The narrowing state of one decode stream, between two input characters.
pub struct DecoderState {
    /// The live candidate ranges, ordered by ascending subset.
    pub candidates: Vec<CandidateRange>,
    /// Characters matched before the current character was consumed.
    pub prev_match_len: usize,
    /// Characters matched including the current character.
    pub curr_match_len: usize,
    /// The case-folded characters consumed since the last reset.
    pub consumed: Ghost<Seq<char>>,
}

impl DecoderState {
    /// The state invariant, relative to the active index: ranges are
    /// in bounds, non-empty and ordered; they cover exactly the index
    /// positions whose words the consumed characters still match; and the
    /// match lengths agree with the consumed characters.
    pub open spec fn inv(self, ix: DecodeIndex) -> bool {
        &&& forall|k: int|
            0 <= k < self.candidates@.len() ==> {
                let r = #[trigger] self.candidates@[k];
                0 <= (r.subset as int) < ix.n_subsets() && r.lo < r.hi && (r.hi as int)
                    <= ix.n_words(r.subset as int)
            }
        &&& forall|k1: int, k2: int|
            0 <= k1 < k2 < self.candidates@.len() ==> (#[trigger] self.candidates@[k1]).subset < (
            #[trigger] self.candidates@[k2]).subset
        &&& forall|si: int, wi: int|
            ix.valid_pos(si, wi) ==> (covered(self.candidates@, si, wi) <==> ix.is_match(
                self.consumed@,
                si,
                wi,
            ))
        &&& self.candidates@.len() > 0 ==> (self.curr_match_len as int == self.consumed@.len()
            && self.prev_match_len == self.curr_match_len)
    }
}

/// While a subset is live — a candidate range of a well-formed decoder
/// state still points into it — its words stand strictly sorted ascending
/// by case-folded word: the index is immutable and narrowing only shrinks
/// ranges.
pub proof fn lemma_live_subset_sorted(ix: DecodeIndex, st: DecoderState, k: int)
    requires
        ix.wf(),
        st.inv(ix),
        0 <= k < st.candidates@.len(),
    ensures
        ({
            let r = st.candidates@[k];
            forall|wi: int, wj: int|
                r.lo <= wi < wj < r.hi ==> lex_lt(
                    ix.word(r.subset as int, wi),
                    ix.word(r.subset as int, wj),
                )
        }),
{
    let r = st.candidates@[k];
    assert(ix.subsets@[r.subset as int].wf());
}

/// A prefix of a prefix is a prefix.
pub proof fn lemma_prefix_trans(a: Seq<char>, b: Seq<char>, c: Seq<char>)
    requires
        a.is_prefix_of(b),
        b.is_prefix_of(c),
    ensures
        a.is_prefix_of(c),
{
    assert(c.subrange(0, a.len() as int) =~= b.subrange(0, a.len() as int));
}

/// Extending the consumed characters by a segment narrows a match exactly
/// to words that carry the segment right after the old match.
pub proof fn lemma_match_extend(ix: DecodeIndex, s0: Seq<char>, seg: Seq<char>, si: int, wi: int)
    requires
        ix.valid_pos(si, wi),
    ensures
        ix.is_match(s0 + seg, si, wi) <==> (ix.is_match(s0, si, wi) && s0.len() + seg.len()
            <= ix.word(si, wi).len() && ix.word(si, wi).subrange(
            s0.len() as int,
            (s0.len() + seg.len()) as int,
        ) == seg),
{
    let w = ix.word(si, wi);
    let s1 = s0 + seg;
    if s1.len() <= w.len() {
        if s1.is_prefix_of(w) {
            assert(w.subrange(0, s0.len() as int) =~= s1.subrange(0, s0.len() as int));
            assert(s1.subrange(0, s0.len() as int) =~= s0);
            assert(w.subrange(s0.len() as int, s1.len() as int) =~= s1.subrange(
                s0.len() as int,
                s1.len() as int,
            ));
            assert(s1.subrange(s0.len() as int, s1.len() as int) =~= seg);
        }
        if ix.is_match(s0, si, wi) && w.subrange(s0.len() as int, s1.len() as int) == seg {
            assert(w.subrange(0, s1.len() as int) =~= w.subrange(0, s0.len() as int) + w.subrange(
                s0.len() as int,
                s1.len() as int,
            ));
            assert(w.subrange(0, s0.len() as int) =~= s0);
            assert(w.subrange(0, s1.len() as int) =~= s1);
        }
    }
}

/// In an ordered candidate list, a subset is covered by at most the one
/// range that names it.
pub proof fn lemma_range_covered(cands: Seq<CandidateRange>, x: int, wi: int)
    requires
        forall|k1: int, k2: int|
            0 <= k1 < k2 < cands.len() ==> (#[trigger] cands[k1]).subset < (
            #[trigger] cands[k2]).subset,
        0 <= x < cands.len(),
    ensures
        covered(cands, cands[x].subset as int, wi) <==> (cands[x].lo <= wi < cands[x].hi),
{
    if covered(cands, cands[x].subset as int, wi) {
        let k = choose|k: int|
            0 <= k < cands.len() && (#[trigger] cands[k]).subset == cands[x].subset as int
                && cands[k].lo <= wi < cands[k].hi;
        if k < x {
            assert(cands[k].subset < cands[x].subset);
        } else if k > x {
            assert(cands[x].subset < cands[k].subset);
        }
        assert(k == x);
    }
}

/// The candidate ranges that cover a whole index.
fn full_ranges(ix: &DecodeIndex) -> (r: Vec<CandidateRange>)
    requires
        ix.wf(),
    ensures
        r@.len() == ix.n_subsets(),
        forall|k: int|
            0 <= k < r@.len() ==> {
                let c = #[trigger] r@[k];
                c.subset as int == k && c.lo == 0 && c.hi as int == ix.n_words(k)
            },
{
    let mut r: Vec<CandidateRange> = Vec::new();
    let mut k: usize = 0;
    while k < ix.subsets.len()
        invariant
            ix.wf(),
            k <= ix.n_subsets(),
            r@.len() == k,
            forall|x: int|
                0 <= x < k ==> {
                    let c = #[trigger] r@[x];
                    c.subset as int == x && c.lo == 0 && c.hi as int == ix.n_words(x)
                },
        decreases ix.n_subsets() - k,
    {
        let hi = ix.subsets[k].words.len();
        r.push(CandidateRange { subset: k, lo: 0, hi });
        k = k + 1;
    }
    r
}

/// Narrows one candidate range to the entries that carry `seg` right after
/// the `prev` characters already matched. Because the subset is sorted and
/// all its live entries share the matched prefix, the surviving entries are
/// contiguous: one scan finds the lowest surviving index, a second the
/// lowest index past it that no longer survives.
fn narrow_range(
    ix: &DecodeIndex,
    r: CandidateRange,
    prev: usize,
    seg: &Vec<char>,
    Ghost(s0): Ghost<Seq<char>>,
) -> (res: Option<CandidateRange>)
    requires
        ix.wf(),
        (r.subset as int) < ix.n_subsets(),
        r.lo < r.hi,
        (r.hi as int) <= ix.n_words(r.subset as int),
        prev as int == s0.len(),
        prev + seg@.len() <= ix.subsets@[r.subset as int].word_len,
        forall|w: int| r.lo <= w < r.hi ==> ix.is_match(s0, r.subset as int, w),
    ensures
        ({
            let s1 = s0 + seg@;
            match res {
                Some(rr) => rr.subset == r.subset && r.lo <= rr.lo && rr.lo < rr.hi && rr.hi <= r.hi
                    && (forall|w: int|
                    r.lo <= w < r.hi ==> (ix.is_match(s1, r.subset as int, w) <==> (rr.lo <= w
                        < rr.hi))),
                None => forall|w: int| r.lo <= w < r.hi ==> !ix.is_match(s1, r.subset as int, w),
            }
        }),
{
    let ghost s1 = s0 + seg@;
    let ghost si = r.subset as int;
    proof {
        // A range entry matches the extended characters exactly when it
        // carries the segment right after the old match.
        assert forall|w: int| r.lo <= w < r.hi implies (ix.is_match(s1, si, w)
            <==> crate::wordlist::has_segment_at(ix.word(si, w), prev as int, seg@)) by {
            lemma_match_extend(*ix, s0, seg@, si, w);
            assert(ix.word(si, w).len() == ix.subsets@[si].word_len);
            assert(ix.word(si, w).subrange(0, s0.len() as int) =~= ix.word(si, w).take(
                s0.len() as int,
            ));
        }
    }
    let mut lo = r.lo;
    let mut found = false;
    while lo < r.hi && !found
        invariant
            ix.wf(),
            si == r.subset as int,
            si < ix.n_subsets(),
            r.lo <= lo <= r.hi,
            (r.hi as int) <= ix.n_words(si),
            prev + seg@.len() <= ix.subsets@[si].word_len,
            found ==> (lo as int) < r.hi && crate::wordlist::has_segment_at(
                ix.word(si, lo as int),
                prev as int,
                seg@,
            ),
            forall|w: int|
                r.lo <= w < lo ==> !crate::wordlist::has_segment_at(
                    ix.word(si, w),
                    prev as int,
                    seg@,
                ),
        decreases r.hi - lo + (if found { 0int } else { 1int }),
    {
        proof {
            assert(ix.subsets@[si].wf());
            assert(ix.word(si, lo as int).len() == ix.subsets@[si].word_len);
        }
        if has_segment_at_exec(&ix.subsets[r.subset].words[lo].word, prev, seg) {
            found = true;
        } else {
            lo = lo + 1;
        }
    }
    if !found {
        proof {
            assert(lo == r.hi);
            assert forall|w: int| r.lo <= w < r.hi implies !ix.is_match(s1, si, w) by {}
        }
        return None;
    }
    let mut hi = lo + 1;
    let mut stopped = false;
    while hi < r.hi && !stopped
        invariant
            ix.wf(),
            si == r.subset as int,
            si < ix.n_subsets(),
            r.lo <= lo < hi,
            hi <= r.hi,
            (r.hi as int) <= ix.n_words(si),
            prev + seg@.len() <= ix.subsets@[si].word_len,
            stopped ==> (hi as int) < r.hi && !crate::wordlist::has_segment_at(
                ix.word(si, hi as int),
                prev as int,
                seg@,
            ),
            forall|w: int|
                lo <= w < hi ==> crate::wordlist::has_segment_at(
                    ix.word(si, w),
                    prev as int,
                    seg@,
                ),
        decreases r.hi - hi + (if stopped { 0int } else { 1int }),
    {
        proof {
            assert(ix.subsets@[si].wf());
            assert(ix.word(si, hi as int).len() == ix.subsets@[si].word_len);
        }
        if !has_segment_at_exec(&ix.subsets[r.subset].words[hi].word, prev, seg) {
            stopped = true;
        } else {
            hi = hi + 1;
        }
    }
    proof {
        // Survivors are contiguous: an entry past the first non-survivor
        // would share the extended prefix with the first survivor, and the
        // sorted order would force the non-survivor between them to share
        // it too.
        assert(ix.is_match(s1, si, lo as int));
        assert forall|w: int| hi <= w < r.hi implies !ix.is_match(s1, si, w) by {
            if ix.is_match(s1, si, w) {
                assert(stopped);
                if w == hi {
                    assert(false);
                } else {
                    assert((hi as int) < w);
                    let a = ix.word(si, lo as int);
                    let b = ix.word(si, hi as int);
                    let c = ix.word(si, w);
                    let m = s1.len() as int;
                    assert(lex_lt(a, b));
                    assert(lex_lt(b, c));
                    assert(a.take(m) =~= s1);
                    assert(c.take(m) =~= s1);
                    assert(ix.subsets@[si].wf());
                    assert(a.len() == ix.subsets@[si].word_len);
                    assert(b.len() == ix.subsets@[si].word_len);
                    assert(c.len() == ix.subsets@[si].word_len);
                    crate::wordlist::lemma_lex_between(a, b, c, m);
                    assert(b.take(m) == s1);
                    assert(b.subrange(0, m) =~= b.take(m));
                    assert(s1.is_prefix_of(b));
                    assert(ix.is_match(s1, si, hi as int));
                    assert(false);
                }
            }
        }
    }
    Some(CandidateRange { subset: r.subset, lo, hi })
}

/// Advances a narrowing state by one input character against the active
/// index. Whitespace is skipped; any other character extends the match by
/// its folded length, narrows the candidates by length and then by content,
/// and either fails (no word matches), resolves (exactly one word matches
/// completely — its byte is emitted and the state is re-seeded from the
/// reset index), or carries the narrowed state to the next character.
fn advance_state(
    active: &DecodeIndex,
    reset: &DecodeIndex,
    st: &mut DecoderState,
    c: char,
) -> (r: Result<Option<u8>, DecodeError>)
    requires
        active.wf(),
        reset.wf(),
        old(st).inv(*active),
    ensures
        ({
            let s0 = old(st).consumed@;
            let s1 = s0 + fold_of(c);
            if is_skip(c) {
                r == Ok::<Option<u8>, DecodeError>(None) && *final(st) == *old(st)
            } else if !active.some_match(s1) {
                r == Err::<Option<u8>, DecodeError>(DecodeError::InvalidData)
                    && final(st).consumed@ == s1 && final(st).inv(*active)
            } else if active.resolves(s1) {
                r == Ok::<Option<u8>, DecodeError>(Some(active.resolved_byte(s1)))
                    && final(st).consumed@ == Seq::<char>::empty() && final(st).inv(*reset)
            } else {
                r == Ok::<Option<u8>, DecodeError>(None) && final(st).consumed@ == s1
                    && final(st).inv(*active)
            }
        }),
{
    let folded = lowercase_chars(c);
    if folded.len() == 1 {
        let ch = folded[0];
        if ch == ' ' || ch == '\n' || ch == '\r' {
            proof {
                assert(fold_of(c) =~= seq![ch]);
            }
            return Ok(None);
        }
    }
    proof {
        assert(!is_skip(c)) by {
            if fold_of(c) == seq![' '] {
                assert(folded@[0] == ' ');
            } else if fold_of(c) == seq!['\n'] {
                assert(folded@[0] == '\n');
            } else if fold_of(c) == seq!['\r'] {
                assert(folded@[0] == '\r');
            }
        }
    }
    let ghost s0 = st.consumed@;
    let ghost s1 = s0 + fold_of(c);
    proof {
        assert(s1.subrange(0, s0.len() as int) =~= s0);
        assert(s0.is_prefix_of(s1));
        assert forall|si: int, wi: int|
            active.valid_pos(si, wi) && #[trigger] active.is_match(s1, si, wi) implies active.is_match(
            s0,
            si,
            wi,
        ) by {
            lemma_prefix_trans(s0, s1, active.word(si, wi));
        }
    }
    if st.candidates.len() == 0 {
        st.consumed = Ghost(s1);
        proof {
            assert forall|si: int, wi: int| active.valid_pos(si, wi) implies !active.is_match(
                s1,
                si,
                wi,
            ) by {
                if active.is_match(s1, si, wi) {
                    assert(active.is_match(s0, si, wi));
                    assert(covered(old(st).candidates@, si, wi));
                    let k = choose|k: int|
                        0 <= k < old(st).candidates@.len() && (
                        #[trigger] old(st).candidates@[k]).subset == si
                            && old(st).candidates@[k].lo <= wi < old(st).candidates@[k].hi;
                    assert(false);
                }
            }
            assert(!active.some_match(s1));
        }
        return Err(DecodeError::InvalidData);
    }
    // The match cannot outgrow the longest table word; a segment that would
    // push it past the address space matches nothing.
    if st.curr_match_len > usize::MAX - folded.len() {
        st.candidates = Vec::new();
        st.consumed = Ghost(s1);
        proof {
            assert(s1.len() > usize::MAX);
            assert forall|si: int, wi: int| active.valid_pos(si, wi) implies !active.is_match(
                s1,
                si,
                wi,
            ) by {
                let e = active.subsets@[si].words@[wi];
                assert(e.word.len() == e.word@.len());
                assert(active.word(si, wi).len() <= usize::MAX);
            }
            assert(!active.some_match(s1));
        }
        return Err(DecodeError::InvalidData);
    }
    let new_curr = st.curr_match_len + folded.len();
    proof {
        assert(new_curr as int == s1.len());
    }
    let ghost cands0 = st.candidates@;
    // Length-narrow: subsets too short to hold the match drop off the front
    // of the candidate list.
    let mut k: usize = 0;
    while k < st.candidates.len() && active.subsets[st.candidates[k].subset].word_len < new_curr
        invariant
            active.wf(),
            st.inv(*active),
            st.candidates@ == cands0,
            k <= cands0.len(),
            forall|x: int|
                0 <= x < k ==> (active.subsets@[(#[trigger] cands0[x]).subset as int].word_len
                    as int) < new_curr as int,
        decreases cands0.len() - k,
    {
        k = k + 1;
    }
    proof {
        // Candidates keep their ascending-length order, so every remaining
        // subset is long enough.
        assert forall|x: int| k <= x < cands0.len() implies (active.subsets@[(
        #[trigger] cands0[x]).subset as int].word_len as int) >= new_curr as int by {
            if x > k {
                assert(cands0[k as int].subset < cands0[x].subset);
            }
        }
    }
    // Prefix-narrow: each surviving range shrinks to the entries that carry
    // the folded segment right after the characters already matched; empty
    // ranges drop out.
    let mut newc: Vec<CandidateRange> = Vec::new();
    let mut x: usize = k;
    while x < st.candidates.len()
        invariant
            active.wf(),
            st.inv(*active),
            st.candidates@ == cands0,
            st.consumed@ == s0,
            st.prev_match_len as int == s0.len(),
            s1 == s0 + fold_of(c),
            folded@ == fold_of(c),
            new_curr as int == s1.len(),
            st.curr_match_len as int + folded@.len() == new_curr as int,
            k <= x <= cands0.len(),
            forall|y: int|
                0 <= y < k ==> (active.subsets@[(#[trigger] cands0[y]).subset as int].word_len
                    as int) < new_curr as int,
            forall|y: int|
                k <= y < cands0.len() ==> (active.subsets@[(#[trigger] cands0[y]).subset
                    as int].word_len as int) >= new_curr as int,
            forall|m: int|
                0 <= m < newc@.len() ==> {
                    let rr = #[trigger] newc@[m];
                    0 <= (rr.subset as int) < active.n_subsets() && rr.lo < rr.hi && (rr.hi as int)
                        <= active.n_words(rr.subset as int)
                },
            forall|m: int|
                0 <= m < newc@.len() ==> exists|y: int|
                    k <= y < x && (#[trigger] newc@[m]).subset == cands0[y].subset,
            forall|m1: int, m2: int|
                0 <= m1 < m2 < newc@.len() ==> (#[trigger] newc@[m1]).subset < (
                #[trigger] newc@[m2]).subset,
            forall|si: int, wi: int|
                active.valid_pos(si, wi) && si < processed_bound(cands0, x as int, *active) ==> (
                covered(newc@, si, wi) <==> active.is_match(s1, si, wi)),
        decreases cands0.len() - x,
    {
        let r = st.candidates[x];
        let ghost si = r.subset as int;
        let ghost newc0 = newc@;
        proof {
            // Every entry of the live range still matches the old characters.
            assert(st.candidates@[x as int] == r);
            assert forall|w: int| r.lo <= w < r.hi implies active.is_match(s0, si, w) by {
                lemma_range_covered(cands0, x as int, w);
                assert(covered(st.candidates@, si, w));
                assert(active.valid_pos(si, w));
                assert(active.is_match(st.consumed@, si, w));
            }
        }
        let narrowed = narrow_range(
            active,
            r,
            st.prev_match_len,
            &folded,
            Ghost(s0),
        );
        if let Some(rr) = narrowed {
            proof {
                assert forall|m: int| 0 <= m < newc0.len() implies (#[trigger] newc0[m]).subset
                    < rr.subset by {
                    let y = choose|y: int|
                        k <= y < x && (#[trigger] newc0[m]).subset == cands0[y].subset;
                    assert(cands0[y].subset < cands0[x as int].subset);
                }
            }
            newc.push(rr);
        }
        proof {
            let bound0 = processed_bound(cands0, x as int, *active);
            let bound1 = processed_bound(cands0, x as int + 1, *active);
            assert(bound0 == cands0[x as int].subset as int);
            assert(bound0 < bound1);
            assert forall|sj: int, wi: int|
                active.valid_pos(sj, wi) && sj < bound1 implies (covered(newc@, sj, wi)
                <==> active.is_match(s1, sj, wi)) by {
                if sj < bound0 {
                    // Earlier subsets: the new range (if any) does not touch
                    // them, so the old equivalence carries over.
                    assert(covered(newc@, sj, wi) == covered(newc0, sj, wi)) by {
                        if covered(newc@, sj, wi) {
                            let m = choose|m: int|
                                0 <= m < newc@.len() && (#[trigger] newc@[m]).subset == sj
                                    && newc@[m].lo <= wi < newc@[m].hi;
                            assert(m < newc0.len());
                        }
                        if covered(newc0, sj, wi) {
                            let m = choose|m: int|
                                0 <= m < newc0.len() && (#[trigger] newc0[m]).subset == sj
                                    && newc0[m].lo <= wi < newc0[m].hi;
                            assert(newc@[m] == newc0[m]);
                        }
                    }
                } else if sj == bound0 {
                    // The subset just processed: narrow_range says exactly
                    // which entries survive.
                    if active.is_match(s1, sj, wi) {
                        assert(active.is_match(s0, sj, wi));
                        assert(covered(cands0, sj, wi));
                        lemma_range_covered(cands0, x as int, wi);
                        assert(r.lo <= wi < r.hi);
                        match narrowed {
                            Some(rr) => {
                                assert(rr.lo <= wi < rr.hi);
                                let m = newc@.len() - 1;
                                assert(newc@[m] == rr);
                                assert(covered(newc@, sj, wi));
                            },
                            None => {
                                assert(false);
                            },
                        }
                    }
                    if covered(newc@, sj, wi) {
                        let m = choose|m: int|
                            0 <= m < newc@.len() && (#[trigger] newc@[m]).subset == sj
                                && newc@[m].lo <= wi < newc@[m].hi;
                        if m < newc0.len() {
                            let y = choose|y: int|
                                k <= y < x && (#[trigger] newc0[m]).subset == cands0[y].subset;
                            assert(cands0[y].subset < cands0[x as int].subset);
                            assert(false);
                        }
                        match narrowed {
                            Some(rr) => {
                                assert(newc@[m] == rr);
                                assert(active.is_match(s1, sj, wi));
                            },
                            None => {
                                assert(false);
                            },
                        }
                    }
                } else {
                    // Subsets strictly between this range and the next are
                    // in no range at all: nothing ever matched them.
                    assert(!covered(newc@, sj, wi)) by {
                        if covered(newc@, sj, wi) {
                            let m = choose|m: int|
                                0 <= m < newc@.len() && (#[trigger] newc@[m]).subset == sj
                                    && newc@[m].lo <= wi < newc@[m].hi;
                            if m < newc0.len() {
                                let y = choose|y: int|
                                    k <= y < x && (#[trigger] newc0[m]).subset == cands0[y].subset;
                                assert(cands0[y].subset < cands0[x as int].subset);
                            }
                            assert(false);
                        }
                    }
                    assert(!active.is_match(s1, sj, wi)) by {
                        if active.is_match(s1, sj, wi) {
                            assert(active.is_match(s0, sj, wi));
                            assert(covered(cands0, sj, wi));
                            let m = choose|m: int|
                                0 <= m < cands0.len() && (#[trigger] cands0[m]).subset == sj
                                    && cands0[m].lo <= wi < cands0[m].hi;
                            if m <= x {
                                assert(cands0[m].subset <= cands0[x as int].subset);
                                assert(false);
                            } else if (x as int) + 1 < cands0.len() && m >= x + 1 {
                                assert(cands0[x as int + 1].subset <= cands0[m].subset);
                                assert(false);
                            } else {
                                assert(false);
                            }
                        }
                    }
                }
            }
        }
        x = x + 1;
    }
    // Step the match lengths and the consumed characters.
    st.prev_match_len = new_curr;
    st.curr_match_len = new_curr;
    st.consumed = Ghost(s1);
    st.candidates = newc;
    proof {
        assert(processed_bound(cands0, cands0.len() as int, *active) == active.n_subsets());
        assert(st.inv(*active));
    }
    // Exhaustion: no candidate word is left, the input is invalid.
    if st.candidates.len() == 0 {
        proof {
            assert forall|si: int, wi: int| active.valid_pos(si, wi) implies !active.is_match(
                s1,
                si,
                wi,
            ) by {
                if active.is_match(s1, si, wi) {
                    assert(covered(st.candidates@, si, wi));
                    let m = choose|m: int|
                        0 <= m < st.candidates@.len() && (#[trigger] st.candidates@[m]).subset == si
                            && st.candidates@[m].lo <= wi < st.candidates@[m].hi;
                    assert(false);
                }
            }
            assert(!active.some_match(s1));
        }
        return Err(DecodeError::InvalidData);
    }
    proof {
        let m0 = st.candidates@[0];
        assert(covered(st.candidates@, m0.subset as int, m0.lo as int));
        assert(active.valid_pos(m0.subset as int, m0.lo as int));
        assert(active.is_match(st.consumed@, m0.subset as int, m0.lo as int));
        assert(active.some_match(s1));
    }
    // Resolution: exactly one subset with exactly one word, matched to its
    // full length — emit its byte and re-seed from the reset index.
    if st.candidates.len() == 1 {
        let r0 = st.candidates[0];
        if r0.hi - r0.lo == 1 {
            if new_curr == active.subsets[r0.subset].word_len {
                let byte = active.subsets[r0.subset].words[r0.lo].byte;
                proof {
                    let oursi = r0.subset as int;
                    let ourwi = r0.lo as int;
                    assert(covered(st.candidates@, oursi, ourwi));
                    assert(active.is_match(s1, oursi, ourwi));
                    assert(active.subsets@[oursi].wf());
                    assert(active.word(oursi, ourwi).len() == s1.len());
                    assert forall|sj: int, wj: int|
                        active.is_match(s1, sj, wj) implies sj == oursi && wj == ourwi by {
                        assert(covered(st.candidates@, sj, wj));
                        let m = choose|m: int|
                            0 <= m < st.candidates@.len() && (#[trigger] st.candidates@[m]).subset
                                == sj && st.candidates@[m].lo <= wj < st.candidates@[m].hi;
                        assert(m == 0);
                    }
                    assert(active.only_match(s1, oursi, ourwi));
                    assert(active.resolves(s1));
                    assert(active.resolved_byte(s1) == byte) by {
                        let (a, b): (int, int) = choose|a: int, b: int|
                            active.is_match(s1, a, b) && active.word(a, b).len() == s1.len()
                                && active.only_match(s1, a, b);
                        assert(active.is_match(s1, a, b));
                        assert(a == oursi && b == ourwi);
                    }
                }
                let nst = fresh_state(reset);
                st.candidates = nst.candidates;
                st.prev_match_len = 0;
                st.curr_match_len = 0;
                st.consumed = Ghost(Seq::empty());
                return Ok(Some(byte));
            }
        }
    }
    proof {
        // Not resolved: either several ranges, a range of several words, or
        // one complete word short of its subset's length.
        assert(!active.resolves(s1)) by {
            if active.resolves(s1) {
                let (a, b): (int, int) = choose|a: int, b: int|
                    active.is_match(s1, a, b) && active.word(a, b).len() == s1.len()
                        && active.only_match(s1, a, b);
                assert(covered(st.candidates@, a, b));
                let m = choose|m: int|
                    0 <= m < st.candidates@.len() && (#[trigger] st.candidates@[m]).subset == a
                        && st.candidates@[m].lo <= b < st.candidates@[m].hi;
                if st.candidates@.len() > 1 {
                    let other = if m == 0 {
                        1int
                    } else {
                        0int
                    };
                    let ro = st.candidates@[other];
                    assert(covered(st.candidates@, ro.subset as int, ro.lo as int));
                    assert(active.valid_pos(ro.subset as int, ro.lo as int));
                    assert(active.is_match(st.consumed@, ro.subset as int, ro.lo as int));
                    assert(active.is_match(s1, ro.subset as int, ro.lo as int));
                    assert(ro.subset != st.candidates@[m].subset);
                    assert(false);
                } else {
                    let r0 = st.candidates@[0];
                    assert(m == 0);
                    if r0.hi - r0.lo > 1 {
                        assert(covered(st.candidates@, r0.subset as int, r0.lo as int));
                        assert(covered(st.candidates@, r0.subset as int, r0.lo + 1));
                        assert(active.valid_pos(r0.subset as int, r0.lo as int));
                        assert(active.valid_pos(r0.subset as int, r0.lo + 1));
                        assert(active.is_match(st.consumed@, r0.subset as int, r0.lo as int));
                        assert(active.is_match(st.consumed@, r0.subset as int, r0.lo + 1));
                        assert(false);
                    } else {
                        assert(b == r0.lo as int);
                        assert(active.subsets@[a].wf());
                        assert(active.word(a, b).len() == active.subsets@[a].word_len);
                        assert(s1.len() != active.subsets@[a].word_len as int);
                        assert(false);
                    }
                }
            }
        }
    }
    Ok(None)
}

/// The next subset bound of the prefix-narrowing pass: candidates before
/// position `x` have been processed, and every subset index below this
/// bound is settled.
pub open spec fn processed_bound(cands: Seq<CandidateRange>, x: int, ix: DecodeIndex) -> int {
    if x < cands.len() {
        cands[x].subset as int
    } else {
        ix.n_subsets()
    }
}

/// A fresh narrowing state: nothing consumed, the whole index live.
fn fresh_state(ix: &DecodeIndex) -> (st: DecoderState)
    requires
        ix.wf(),
    ensures
        st.inv(*ix),
        st.consumed@ == Seq::<char>::empty(),
        st.prev_match_len == 0,
        st.curr_match_len == 0,
{
    let candidates = full_ranges(ix);
    let st = DecoderState {
        candidates,
        prev_match_len: 0,
        curr_match_len: 0,
        consumed: Ghost(Seq::empty()),
    };
    proof {
        assert forall|si: int, wi: int| ix.valid_pos(si, wi) implies (covered(
            st.candidates@,
            si,
            wi,
        ) <==> ix.is_match(st.consumed@, si, wi)) by {
            assert(st.candidates@[si].subset as int == si && st.candidates@[si].lo == 0
                && st.candidates@[si].hi as int == ix.n_words(si));
            assert(covered(st.candidates@, si, wi));
            assert(ix.word(si, wi).subrange(0, 0) =~= Seq::<char>::empty());
            assert(Seq::<char>::empty().is_prefix_of(ix.word(si, wi)));
        }
        assert forall|k1: int, k2: int|
            0 <= k1 < k2 < st.candidates@.len() implies (#[trigger] st.candidates@[k1]).subset < (
        #[trigger] st.candidates@[k2]).subset by {
            assert(st.candidates@[k1].subset as int == k1);
            assert(st.candidates@[k2].subset as int == k2);
        }
    }
    st
}

/// The outcome of running a decoder over a whole character sequence.
pub ghost struct RunResult {
    /// The bytes emitted, in order, up to the first failure if any.
    pub emitted: Seq<u8>,
    /// Whether the stream hit characters matching no table word.
    pub error: bool,
    /// The characters consumed since the last reset, at the end of the run.
    pub consumed: Seq<char>,
    /// The family selector at the end of the run.
    pub sel: u8,
}

/// The meaning of a decode stream, one character at a time: family `a` is
/// active while the selector is 0, family `b` while it is 1, and the
/// selector flips at every emitted byte. A single-list scheme passes the
/// same index twice.
pub open spec fn run_decoder(
    a: DecodeIndex,
    b: DecodeIndex,
    sel: u8,
    consumed: Seq<char>,
    input: Seq<char>,
) -> RunResult
    decreases input.len(),
{
    if input.len() == 0 {
        RunResult { emitted: Seq::empty(), error: false, consumed, sel }
    } else {
        let c = input[0];
        let rest = input.drop_first();
        if is_skip(c) {
            run_decoder(a, b, sel, consumed, rest)
        } else {
            let s1 = consumed + fold_of(c);
            let ix = if sel == 0 {
                a
            } else {
                b
            };
            if !ix.some_match(s1) {
                RunResult { emitted: Seq::empty(), error: true, consumed: s1, sel }
            } else if ix.resolves(s1) {
                let nsel: u8 = if sel == 0 {
                    1
                } else {
                    0
                };
                let rr = run_decoder(a, b, nsel, Seq::empty(), rest);
                RunResult {
                    emitted: seq![ix.resolved_byte(s1)] + rr.emitted,
                    error: rr.error,
                    consumed: rr.consumed,
                    sel: rr.sel,
                }
            } else {
                run_decoder(a, b, sel, s1, rest)
            }
        }
    }
}

/// Feeds a whole character sequence to the narrowing machine, collecting
/// the emitted bytes and stopping at the first failure.
fn run_machine(
    a: &DecodeIndex,
    b: &DecodeIndex,
    sel: &mut u8,
    st: &mut DecoderState,
    input: &Vec<char>,
) -> (r: Result<Vec<u8>, DecodeError>)
    requires
        a.wf(),
        b.wf(),
        *old(sel) == 0 || *old(sel) == 1,
        old(st).inv(if *old(sel) == 0 {
            *a
        } else {
            *b
        }),
    ensures
        *final(sel) == 0 || *final(sel) == 1,
        final(st).inv(
            if *final(sel) == 0 {
                *a
            } else {
                *b
            },
        ),
        ({
            let rr = run_decoder(*a, *b, *old(sel), old(st).consumed@, input@);
            match r {
                Ok(v) => v@ == rr.emitted && !rr.error && final(st).consumed@ == rr.consumed
                    && *final(sel) == rr.sel,
                Err(e) => rr.error && e == DecodeError::InvalidData && final(st).consumed@
                    == rr.consumed && *final(sel) == rr.sel,
            }
        }),
{
    let ghost rr0 = run_decoder(*a, *b, *sel, st.consumed@, input@);
    let mut out: Vec<u8> = Vec::new();
    let mut i: usize = 0;
    proof {
        assert(input@.skip(0) =~= input@);
    }
    while i < input.len()
        invariant
            a.wf(),
            b.wf(),
            *sel == 0 || *sel == 1,
            st.inv(
                if *sel == 0 {
                    *a
                } else {
                    *b
                },
            ),
            i <= input@.len(),
            rr0 == run_decoder(*a, *b, *old(sel), old(st).consumed@, input@),
            ({
                let rest = run_decoder(*a, *b, *sel, st.consumed@, input@.skip(i as int));
                rr0.emitted == out@ + rest.emitted && rr0.error == rest.error && rr0.consumed
                    == rest.consumed && rr0.sel == rest.sel
            }),
        decreases input@.len() - i,
    {
        let c = input[i];
        let ghost rest0 = input@.skip(i as int);
        proof {
            assert(rest0[0] == input@[i as int]);
            assert(rest0.drop_first() =~= input@.skip(i as int + 1));
        }
        let ghost s0 = st.consumed@;
        let ghost sel0 = *sel;
        let res = if *sel == 0 {
            advance_state(a, b, st, c)
        } else {
            advance_state(b, a, st, c)
        };
        match res {
            Ok(emitted_byte) => {
                if let Some(byte) = emitted_byte {
                    out.push(byte);
                    *sel = if *sel == 0 {
                        1
                    } else {
                        0
                    };
                    proof {
                        let ix = if sel0 == 0 {
                            *a
                        } else {
                            *b
                        };
                        let s1 = s0 + fold_of(c);
                        assert(ix.resolves(s1));
                        assert(byte == ix.resolved_byte(s1));
                        assert(run_decoder(*a, *b, sel0, s0, rest0) == RunResult {
                            emitted: seq![byte] + run_decoder(
                                *a,
                                *b,
                                *sel,
                                Seq::empty(),
                                rest0.drop_first(),
                            ).emitted,
                            error: run_decoder(*a, *b, *sel, Seq::empty(), rest0.drop_first()).error,
                            consumed: run_decoder(
                                *a,
                                *b,
                                *sel,
                                Seq::empty(),
                                rest0.drop_first(),
                            ).consumed,
                            sel: run_decoder(*a, *b, *sel, Seq::empty(), rest0.drop_first()).sel,
                        });
                        assert(out@ =~= out@.subrange(0, out@.len() - 1).push(byte));
                        assert(rr0.emitted =~= out@.subrange(0, out@.len() - 1) + (seq![byte]
                            + run_decoder(
                            *a,
                            *b,
                            *sel,
                            Seq::empty(),
                            rest0.drop_first(),
                        ).emitted));
                        assert(rr0.emitted =~= out@ + run_decoder(
                            *a,
                            *b,
                            *sel,
                            Seq::empty(),
                            rest0.drop_first(),
                        ).emitted);
                    }
                } else {
                    proof {
                        let s1 = s0 + fold_of(c);
                        if is_skip(c) {
                            assert(run_decoder(*a, *b, sel0, s0, rest0) == run_decoder(
                                *a,
                                *b,
                                sel0,
                                s0,
                                rest0.drop_first(),
                            ));
                        } else {
                            assert(run_decoder(*a, *b, sel0, s0, rest0) == run_decoder(
                                *a,
                                *b,
                                sel0,
                                s1,
                                rest0.drop_first(),
                            ));
                        }
                    }
                }
            },
            Err(e) => {
                proof {
                    assert(run_decoder(*a, *b, sel0, s0, rest0).error);
                    assert(rr0.error);
                }
                return Err(e);
            },
        }
        i = i + 1;
    }
    proof {
        assert(input@.skip(input@.len() as int).len() == 0);
        assert(rr0.emitted =~= out@);
    }
    Ok(out)
}

/// A base 256 decoder: turns a character stream back into the byte stream
/// it renders, for the scheme's bundled word lists.
pub trait Decode: Sized {
    /// The decoder's invariant.
    spec fn wf(self) -> bool;

    /// The decoder's index represents exactly the scheme's bundled,
    /// case-folded word lists.
    spec fn bundled(self) -> bool;

    /// Whether the scheme's bundled word lists form valid decode tables.
    spec fn lists_ok() -> bool;

    /// Creates the decoder of this scheme over its bundled word lists.
    /// Construction fails exactly when a bundled list is not a valid
    /// decode table.
    fn decode() -> (r: Result<Self, BuildError>)
        ensures
            r matches Ok(d) ==> d.wf() && d.bundled(),
            (r matches Ok(_)) <==> Self::lists_ok(),
    ;
}

/// Base 256 decoder using the EFF-style short word list.
pub struct EffDecode {
    pub index: DecodeIndex,
    pub state: DecoderState,
}

impl EffDecode {
    /// The characters consumed since the last emitted byte.
    pub open spec fn consumed(self) -> Seq<char> {
        self.state.consumed@
    }

    /// Creates a decoder over any 256-word list. Fails exactly when the
    /// list is not a valid decode table.
    pub fn from_words(words: &Vec<&str>) -> (r: Result<EffDecode, BuildError>)
        ensures
            match r {
                Ok(d) => d.wf() && d.consumed() == Seq::<char>::empty() && d.index.represents(
                    fold_table(words@),
                ) && list_valid(words@),
                Err(e) => build_error_spec(words@, e),
            },
    {
        match DecodeIndex::build(words) {
            Ok(index) => {
                let state = fresh_state(&index);
                Ok(EffDecode { index, state })
            },
            Err(e) => Err(e),
        }
    }

    /// Feeds one character to the decoder. Whitespace is skipped; any
    /// other character is case-folded and extends the match. The result is
    /// a byte when the extended match resolves a unique, complete table
    /// word, an error when it matches no table word at all, and nothing
    /// otherwise.
    pub fn advance(&mut self, c: char) -> (r: Result<Option<u8>, DecodeError>)
        requires
            old(self).wf(),
        ensures
            final(self).wf(),
            final(self).index == old(self).index,
            ({
                let s0 = old(self).consumed();
                let s1 = s0 + fold_of(c);
                let ix = old(self).index;
                if is_skip(c) {
                    r == Ok::<Option<u8>, DecodeError>(None) && final(self).consumed() == s0
                } else if !ix.some_match(s1) {
                    r == Err::<Option<u8>, DecodeError>(DecodeError::InvalidData)
                        && final(self).consumed() == s1
                } else if ix.resolves(s1) {
                    r == Ok::<Option<u8>, DecodeError>(Some(ix.resolved_byte(s1)))
                        && final(self).consumed() == Seq::<char>::empty()
                } else {
                    r == Ok::<Option<u8>, DecodeError>(None) && final(self).consumed() == s1
                }
            }),
    {
        advance_state(&self.index, &self.index, &mut self.state, c)
    }

    /// Decodes a whole character sequence, collecting the emitted bytes
    /// and stopping at the first invalid character.
    pub fn decode_all(&mut self, input: &Vec<char>) -> (r: Result<Vec<u8>, DecodeError>)
        requires
            old(self).wf(),
        ensures
            final(self).wf(),
            final(self).index == old(self).index,
            ({
                let rr = run_decoder(
                    old(self).index,
                    old(self).index,
                    0,
                    old(self).consumed(),
                    input@,
                );
                match r {
                    Ok(v) => v@ == rr.emitted && !rr.error && final(self).consumed() == rr.consumed,
                    Err(e) => rr.error && e == DecodeError::InvalidData && final(self).consumed()
                        == rr.consumed,
                }
            }),
    {
        let mut sel: u8 = 0;
        run_machine(&self.index, &self.index, &mut sel, &mut self.state, input)
    }
}

impl Decode for EffDecode {
    /// Decoder invariant: a well-formed index and a narrowing state tied
    /// to it.
    open spec fn wf(self) -> bool {
        self.index.wf() && self.state.inv(self.index)
    }

    open spec fn bundled(self) -> bool {
        self.index.represents(fold_table(eff_words()))
    }

    open spec fn lists_ok() -> bool {
        list_valid(eff_words())
    }

    fn decode() -> (r: Result<Self, BuildError>) {
        EffDecode::from_words(&wl_eff_encode())
    }
}

/// Base 256 decoder using the paired two- and three-syllable word lists,
/// alternating families at every resolved byte.
pub struct PgpDecode {
    pub two_syllable: DecodeIndex,
    pub three_syllable: DecodeIndex,
    pub odd_even: u8,
    pub state: DecoderState,
}

impl PgpDecode {
    /// The family the next resolution is matched against.
    pub open spec fn active(self) -> DecodeIndex {
        if self.odd_even == 0 {
            self.two_syllable
        } else {
            self.three_syllable
        }
    }

    /// The characters consumed since the last emitted byte.
    pub open spec fn consumed(self) -> Seq<char> {
        self.state.consumed@
    }

    /// Creates a decoder over any pair of 256-word lists. Fails exactly
    /// when one of the lists is not a valid decode table, reporting the
    /// first failure.
    pub fn from_words(two: &Vec<&str>, three: &Vec<&str>) -> (r: Result<PgpDecode, BuildError>)
        ensures
            match r {
                Ok(d) => d.wf() && d.consumed() == Seq::<char>::empty() && d.odd_even == 0
                    && d.two_syllable.represents(fold_table(two@)) && d.three_syllable.represents(
                    fold_table(three@),
                ) && list_valid(two@) && list_valid(three@),
                Err(e) => (!list_valid(two@) && build_error_spec(two@, e)) || (list_valid(two@)
                    && build_error_spec(three@, e)),
            },
    {
        let two_syllable = match DecodeIndex::build(two) {
            Ok(ix) => ix,
            Err(e) => {
                return Err(e);
            },
        };
        let three_syllable = match DecodeIndex::build(three) {
            Ok(ix) => ix,
            Err(e) => {
                return Err(e);
            },
        };
        let state = fresh_state(&two_syllable);
        Ok(PgpDecode { two_syllable, three_syllable, odd_even: 0, state })
    }

    /// Feeds one character to the decoder, matching against the active
    /// family; a resolved byte advances the family selector.
    pub fn advance(&mut self, c: char) -> (r: Result<Option<u8>, DecodeError>)
        requires
            old(self).wf(),
        ensures
            final(self).wf(),
            final(self).two_syllable == old(self).two_syllable,
            final(self).three_syllable == old(self).three_syllable,
            ({
                let s0 = old(self).consumed();
                let s1 = s0 + fold_of(c);
                let ix = old(self).active();
                if is_skip(c) {
                    r == Ok::<Option<u8>, DecodeError>(None) && final(self).consumed() == s0
                        && final(self).odd_even == old(self).odd_even
                } else if !ix.some_match(s1) {
                    r == Err::<Option<u8>, DecodeError>(DecodeError::InvalidData)
                        && final(self).consumed() == s1 && final(self).odd_even == old(
                        self,
                    ).odd_even
                } else if ix.resolves(s1) {
                    r == Ok::<Option<u8>, DecodeError>(Some(ix.resolved_byte(s1)))
                        && final(self).consumed() == Seq::<char>::empty() && final(self).odd_even
                        == (if old(self).odd_even == 0 {
                        1u8
                    } else {
                        0u8
                    })
                } else {
                    r == Ok::<Option<u8>, DecodeError>(None) && final(self).consumed() == s1
                        && final(self).odd_even == old(self).odd_even
                }
            }),
    {
        let r = if self.odd_even == 0 {
            advance_state(&self.two_syllable, &self.three_syllable, &mut self.state, c)
        } else {
            advance_state(&self.three_syllable, &self.two_syllable, &mut self.state, c)
        };
        if let Ok(Some(_)) = r {
            self.odd_even = if self.odd_even == 0 {
                1
            } else {
                0
            };
        }
        r
    }

    /// Decodes a whole character sequence, collecting the emitted bytes
    /// and stopping at the first invalid character.
    pub fn decode_all(&mut self, input: &Vec<char>) -> (r: Result<Vec<u8>, DecodeError>)
        requires
            old(self).wf(),
        ensures
            final(self).wf(),
            final(self).two_syllable == old(self).two_syllable,
            final(self).three_syllable == old(self).three_syllable,
            ({
                let rr = run_decoder(
                    old(self).two_syllable,
                    old(self).three_syllable,
                    old(self).odd_even,
                    old(self).consumed(),
                    input@,
                );
                match r {
                    Ok(v) => v@ == rr.emitted && !rr.error && final(self).consumed() == rr.consumed
                        && final(self).odd_even == rr.sel,
                    Err(e) => rr.error && e == DecodeError::InvalidData && final(self).consumed()
                        == rr.consumed && final(self).odd_even == rr.sel,
                }
            }),
    {
        run_machine(
            &self.two_syllable,
            &self.three_syllable,
            &mut self.odd_even,
            &mut self.state,
            input,
        )
    }
}

impl Decode for PgpDecode {
    /// Decoder invariant: two well-formed family indexes, a binary
    /// selector, and a narrowing state tied to the active family.
    open spec fn wf(self) -> bool {
        &&& self.two_syllable.wf()
        &&& self.three_syllable.wf()
        &&& self.odd_even == 0 || self.odd_even == 1
        &&& self.state.inv(self.active())
    }

    open spec fn bundled(self) -> bool {
        &&& self.two_syllable.represents(fold_table(pgp_two_syllable_words()))
        &&& self.three_syllable.represents(fold_table(pgp_three_syllable_words()))
    }

    open spec fn lists_ok() -> bool {
        list_valid(pgp_two_syllable_words()) && list_valid(pgp_three_syllable_words())
    }

    fn decode() -> (r: Result<Self, BuildError>) {
        PgpDecode::from_words(&wl_pgp_encode_two_syllable(), &wl_pgp_encode_three_syllable())
    }
}

} // verus!
