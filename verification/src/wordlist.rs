//! Wordlist entries and the lexicographic order that decode tables use.
//!
//! A decode table holds 256 (word, byte) pairs. Words are compared by the
//! strict lexicographic order on their case-folded characters; each
//! length-subset of a decode index keeps its entries sorted in that order,
//! which is what lets the decoder narrow a candidate range instead of
//! rescanning a whole table.

use vstd::prelude::*;

verus! {

/// One (word, byte) pair of a decode table. The word is stored case-folded.
pub struct WordlistEntry {
    pub word: Vec<char>,
    pub byte: u8,
}

/// Non-strict lexicographic order on character sequences.
pub open spec fn lex_le(a: Seq<char>, b: Seq<char>) -> bool
    decreases a.len(),
{
    if a.len() == 0 {
        true
    } else if b.len() == 0 {
        false
    } else if a[0] != b[0] {
        (a[0] as int) < (b[0] as int)
    } else {
        lex_le(a.drop_first(), b.drop_first())
    }
}

/// Strict lexicographic order on character sequences.
pub open spec fn lex_lt(a: Seq<char>, b: Seq<char>) -> bool {
    lex_le(a, b) && a != b
}

/// The order is total.
pub proof fn lemma_lex_total(a: Seq<char>, b: Seq<char>)
    ensures
        lex_le(a, b) || lex_le(b, a),
    decreases a.len(),
{
    if a.len() != 0 && b.len() != 0 && a[0] == b[0] {
        lemma_lex_total(a.drop_first(), b.drop_first());
    }
}

/// The order is antisymmetric.
pub proof fn lemma_lex_antisym(a: Seq<char>, b: Seq<char>)
    requires
        lex_le(a, b),
        lex_le(b, a),
    ensures
        a == b,
    decreases a.len(),
{
    if a.len() != 0 && b.len() != 0 && a[0] == b[0] {
        lemma_lex_antisym(a.drop_first(), b.drop_first());
        assert(a =~= seq![a[0]] + a.drop_first());
        assert(b =~= seq![b[0]] + b.drop_first());
    }
}

/// The order is transitive.
pub proof fn lemma_lex_trans(a: Seq<char>, b: Seq<char>, c: Seq<char>)
    requires
        lex_le(a, b),
        lex_le(b, c),
    ensures
        lex_le(a, c),
    decreases a.len(),
{
    if a.len() != 0 && b.len() != 0 && c.len() != 0 && a[0] == b[0] && b[0] == c[0] {
        lemma_lex_trans(a.drop_first(), b.drop_first(), c.drop_first());
    }
}

/// Sequences that lie between two sequences sharing a prefix share that
/// prefix as well: the set of words starting with a given segment is
/// contiguous in lexicographic order.
pub proof fn lemma_lex_between(a: Seq<char>, b: Seq<char>, c: Seq<char>, m: int)
    requires
        lex_le(a, b),
        lex_le(b, c),
        0 <= m <= a.len(),
        m <= b.len(),
        m <= c.len(),
        a.take(m) == c.take(m),
    ensures
        b.take(m) == a.take(m),
    decreases m,
{
    if m > 0 {
        assert(a.take(m)[0] == a[0]);
        assert(c.take(m)[0] == c[0]);
        assert(a[0] == c[0]);
        if a[0] != b[0] {
            // a <= b forces a[0] <= b[0]; b <= c forces b[0] <= c[0] == a[0].
            assert((a[0] as int) < (b[0] as int));
            if b[0] != c[0] {
                assert((b[0] as int) < (c[0] as int));
            }
            assert(false);
        }
        assert(a.drop_first().take(m - 1) =~= a.take(m).drop_first());
        assert(b.drop_first().take(m - 1) =~= b.take(m).drop_first());
        assert(c.drop_first().take(m - 1) =~= c.take(m).drop_first());
        assert(a.drop_first().take(m - 1) =~= c.drop_first().take(m - 1));
        lemma_lex_between(a.drop_first(), b.drop_first(), c.drop_first(), m - 1);
        assert(b.take(m) =~= seq![b[0]] + b.drop_first().take(m - 1));
        assert(a.take(m) =~= seq![a[0]] + a.drop_first().take(m - 1));
    }
}

/// Compares two words in the lexicographic order.
pub fn lex_le_exec(a: &Vec<char>, b: &Vec<char>) -> (r: bool)
    ensures
        r == lex_le(a@, b@),
{
    let mut i: usize = 0;
    proof {
        assert(a@.skip(0) =~= a@);
        assert(b@.skip(0) =~= b@);
    }
    loop
        invariant
            i <= a.len(),
            i <= b.len(),
            lex_le(a@, b@) == lex_le(a@.skip(i as int), b@.skip(i as int)),
        decreases a.len() - i,
    {
        if i == a.len() {
            return true;
        }
        if i == b.len() {
            return false;
        }
        let ca = a[i];
        let cb = b[i];
        if ca != cb {
            proof {
                assert(a@.skip(i as int)[0] == a@[i as int]);
                assert(b@.skip(i as int)[0] == b@[i as int]);
            }
            return ca < cb;
        }
        proof {
            assert(a@.skip(i as int)[0] == a@[i as int]);
            assert(b@.skip(i as int)[0] == b@[i as int]);
            assert(a@.skip(i as int).drop_first() =~= a@.skip(i + 1));
            assert(b@.skip(i as int).drop_first() =~= b@.skip(i + 1));
        }
        i = i + 1;
    }
}

/// Tests two words for equality.
pub fn word_eq(a: &Vec<char>, b: &Vec<char>) -> (r: bool)
    ensures
        r == (a@ == b@),
{
    if a.len() != b.len() {
        return false;
    }
    let mut i: usize = 0;
    while i < a.len()
        invariant
            i <= a.len(),
            a.len() == b.len(),
            forall|j: int| 0 <= j < i ==> a@[j] == b@[j],
        decreases a.len() - i,
    {
        if a[i] != b[i] {
            return false;
        }
        i = i + 1;
    }
    proof {
        assert(a@ =~= b@);
    }
    true
}

/// True when `word` carries `seg` at positions `off .. off + seg.len()`.
pub open spec fn has_segment_at(word: Seq<char>, off: int, seg: Seq<char>) -> bool {
    &&& 0 <= off
    &&& off + seg.len() <= word.len()
    &&& word.subrange(off, off + seg.len()) == seg
}

/// Tests whether `a` is a prefix of `b`.
pub fn is_prefix_exec(a: &Vec<char>, b: &Vec<char>) -> (r: bool)
    ensures
        r == a@.is_prefix_of(b@),
{
    if a.len() > b.len() {
        return false;
    }
    let r = has_segment_at_exec(b, 0, a);
    proof {
        assert(b@.subrange(0, a@.len() as int) =~= b@.take(a@.len() as int));
    }
    r
}

/// Tests whether `word` carries `seg` at position `off`.
pub fn has_segment_at_exec(word: &Vec<char>, off: usize, seg: &Vec<char>) -> (r: bool)
    requires
        off + seg@.len() <= word@.len(),
    ensures
        r == has_segment_at(word@, off as int, seg@),
{
    let mut i: usize = 0;
    proof {
        assert(word@.len() == word.len());
    }
    while i < seg.len()
        invariant
            i <= seg.len(),
            off + seg@.len() <= word@.len(),
            word@.len() <= usize::MAX,
            forall|j: int| 0 <= j < i ==> word@[off + j] == seg@[j],
        decreases seg.len() - i,
    {
        if word[off + i] != seg[i] {
            proof {
                assert(word@.subrange(off as int, off + seg@.len())[i as int] == word@[off + i]);
            }
            return false;
        }
        i = i + 1;
    }
    proof {
        assert(word@.subrange(off as int, off + seg@.len()) =~= seg@);
    }
    true
}

} // verus!
