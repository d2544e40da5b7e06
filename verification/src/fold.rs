//! Case folding of input characters.
//!
//! The decoder never looks at a raw character: every character is first
//! case-folded with `char::to_lowercase`, which may expand one character into
//! several. The word tables are folded the same way when the decode index is
//! built, so matching is case-insensitive by construction.

use vstd::prelude::*;

verus! {

/// The sequence of characters that `char::to_lowercase` yields for `c`.
pub uninterp spec fn fold_of(c: char) -> Seq<char>;

/// ASCII uppercase letters.
pub open spec fn is_ascii_upper(c: char) -> bool {
    'A' <= c && c <= 'Z'
}

/// The lowercase form of an ASCII character (identity outside `A`..`Z`).
pub open spec fn ascii_lower(c: char) -> char {
    if is_ascii_upper(c) {
        ((c as u8) + 32) as char
    } else {
        c
    }
}

/// Case-folds one character.
///
/// Relies on `char::to_lowercase`: its result depends on the character alone;
/// it yields at least one character (a character with no lowercase mapping
/// yields itself), and on ASCII input it yields exactly the ASCII lowercase
/// form of the input.
#[verifier::external_body]
pub(crate) fn lowercase_chars(c: char) -> (r: Vec<char>)
    ensures
        r@ == fold_of(c),
        r@.len() >= 1,
        (c as int) < 128 ==> r@ == seq![ascii_lower(c)],
{
    c.to_lowercase().collect()
}

/// Tests whether two characters case-fold alike — as an ASCII letter and
/// its other case do. Streams whose characters fold alike pairwise decode
/// identically.
pub fn folds_alike(c1: char, c2: char) -> (b: bool)
    ensures
        b == (fold_of(c1) == fold_of(c2)),
{
    let f1 = lowercase_chars(c1);
    let f2 = lowercase_chars(c2);
    crate::wordlist::word_eq(&f1, &f2)
}

/// A character the decoder skips: one whose folded form is exactly a space,
/// newline or carriage return.
pub open spec fn is_skip(c: char) -> bool {
    ||| fold_of(c) == seq![' ']
    ||| fold_of(c) == seq!['\n']
    ||| fold_of(c) == seq!['\r']
}

/// The case-folded image of a whole character sequence.
pub open spec fn fold_seq(s: Seq<char>) -> Seq<char>
    decreases s.len(),
{
    if s.len() == 0 {
        Seq::empty()
    } else {
        fold_of(s[0]) + fold_seq(s.drop_first())
    }
}

/// The folded contribution of an input stream: skipped characters vanish,
/// every other character contributes its folded form.
pub open spec fn stream_fold(s: Seq<char>) -> Seq<char>
    decreases s.len(),
{
    if s.len() == 0 {
        Seq::empty()
    } else if is_skip(s[0]) {
        stream_fold(s.drop_first())
    } else {
        fold_of(s[0]) + stream_fold(s.drop_first())
    }
}

/// Folding distributes over concatenation.
pub proof fn lemma_fold_seq_add(a: Seq<char>, b: Seq<char>)
    ensures
        fold_seq(a + b) == fold_seq(a) + fold_seq(b),
    decreases a.len(),
{
    if a.len() == 0 {
        assert(a + b =~= b);
        assert(fold_seq(a) + fold_seq(b) =~= fold_seq(b));
    } else {
        assert((a + b).drop_first() =~= a.drop_first() + b);
        lemma_fold_seq_add(a.drop_first(), b);
        assert(fold_of(a[0]) + (fold_seq(a.drop_first()) + fold_seq(b)) =~= (fold_of(a[0])
            + fold_seq(a.drop_first())) + fold_seq(b));
    }
}

/// The folded contribution distributes over concatenation.
pub proof fn lemma_stream_fold_add(a: Seq<char>, b: Seq<char>)
    ensures
        stream_fold(a + b) == stream_fold(a) + stream_fold(b),
    decreases a.len(),
{
    if a.len() == 0 {
        assert(a + b =~= b);
        assert(stream_fold(a) + stream_fold(b) =~= stream_fold(b));
    } else {
        assert((a + b).drop_first() =~= a.drop_first() + b);
        lemma_stream_fold_add(a.drop_first(), b);
        if !is_skip(a[0]) {
            assert(fold_of(a[0]) + (stream_fold(a.drop_first()) + stream_fold(b)) =~= (fold_of(
                a[0],
            ) + stream_fold(a.drop_first())) + stream_fold(b));
        }
    }
}

} // verus!
