//! The guarantees that tie the two directions together: a decoder run over
//! any faithful rendering of an encoded byte sequence recovers exactly
//! those bytes, whatever whitespace or letter case the rendering uses —
//! provided no table word is a prefix of another, as with the bundled
//! lists.

use vstd::prelude::*;
use vstd::string::StrSliceExecFns;

use crate::decode::EffDecode;
use crate::decode::PgpDecode;
use crate::decode::RunResult;
use crate::decode::run_decoder;
use crate::encode::EffEncode;
use crate::encode::PgpEncode;
use crate::fold::fold_of;
use crate::fold::fold_seq;
use crate::fold::is_skip;
use crate::fold::lemma_stream_fold_add;
use crate::fold::lowercase_chars;
use crate::fold::stream_fold;
use crate::index::DecodeIndex;
use crate::index::fold_table;
use crate::index::list_valid;
use crate::index::lemma_prefix_free_iff;
use crate::index::table_prefix_free;
use crate::words::eff_words;
use crate::words::pgp_three_syllable_words;
use crate::words::pgp_two_syllable_words;
use crate::words::wl_eff_encode;
use crate::words::wl_pgp_encode_three_syllable;
use crate::words::wl_pgp_encode_two_syllable;

verus! {

/// Every character of the sequence is skipped by the decoder.
pub open spec fn all_skip(s: Seq<char>) -> bool {
    forall|i: int| 0 <= i < s.len() ==> is_skip(#[trigger] s[i])
}

/// The concatenation of a sequence of stream fragments.
pub open spec fn concat_parts(parts: Seq<Seq<char>>) -> Seq<char>
    decreases parts.len(),
{
    if parts.len() == 0 {
        Seq::empty()
    } else {
        parts[0] + concat_parts(parts.drop_first())
    }
}

/// Concatenation distributes over appending one fragment.
pub proof fn lemma_concat_parts_push(parts: Seq<Seq<char>>, p: Seq<char>)
    ensures
        concat_parts(parts.push(p)) == concat_parts(parts) + p,
    decreases parts.len(),
{
    if parts.len() == 0 {
        assert(parts.push(p)[0] == p);
        assert(parts.push(p).drop_first() =~= Seq::<Seq<char>>::empty());
        assert(concat_parts(Seq::<Seq<char>>::empty()) =~= Seq::<char>::empty());
        assert(concat_parts(parts.push(p)) == p + concat_parts(Seq::<Seq<char>>::empty()));
        assert(concat_parts(parts.push(p)) =~= p);
        assert(concat_parts(parts) + p =~= p);
    } else {
        assert(parts.push(p)[0] == parts[0]);
        assert(parts.push(p).drop_first() =~= parts.drop_first().push(p));
        lemma_concat_parts_push(parts.drop_first(), p);
        assert(parts[0] + (concat_parts(parts.drop_first()) + p) =~= (parts[0] + concat_parts(
            parts.drop_first(),
        )) + p);
    }
}

/// A decoder run over skipped characters does nothing.
pub proof fn lemma_skip_run(a: DecodeIndex, b: DecodeIndex, sel: u8, consumed: Seq<char>, s: Seq<char>)
    requires
        all_skip(s),
    ensures
        run_decoder(a, b, sel, consumed, s) == (RunResult {
            emitted: Seq::<u8>::empty(),
            error: false,
            consumed,
            sel,
        }),
    decreases s.len(),
{
    if s.len() > 0 {
        assert(is_skip(s[0]));
        assert forall|i: int| 0 <= i < s.drop_first().len() implies is_skip(
            #[trigger] s.drop_first()[i],
        ) by {
            assert(s.drop_first()[i] == s[i + 1]);
        }
        lemma_skip_run(a, b, sel, consumed, s.drop_first());
    }
}

/// A run whose folded contribution is empty neither emits nor fails: the
/// decoder stays at its reset point.
pub proof fn lemma_empty_fold_run(
    a: DecodeIndex,
    b: DecodeIndex,
    sel: u8,
    s: Seq<char>,
)
    requires
        a.wf(),
        b.wf(),
        a.n_subsets() >= 1,
        b.n_subsets() >= 1,
        stream_fold(s) == Seq::<char>::empty(),
    ensures
        run_decoder(a, b, sel, Seq::<char>::empty(), s) == (RunResult {
            emitted: Seq::<u8>::empty(),
            error: false,
            consumed: Seq::<char>::empty(),
            sel,
        }),
    decreases s.len(),
{
    if s.len() > 0 {
        let c = s[0];
        let rest = s.drop_first();
        if is_skip(c) {
            lemma_empty_fold_run(a, b, sel, rest);
        } else {
            // The character contributes nothing: its folded form is empty.
            assert(stream_fold(s) == fold_of(c) + stream_fold(rest));
            assert(fold_of(c).len() == 0 && stream_fold(rest).len() == 0);
            assert(fold_of(c) =~= Seq::<char>::empty());
            assert(stream_fold(rest) =~= Seq::<char>::empty());
            let s1 = Seq::<char>::empty() + fold_of(c);
            assert(s1 =~= Seq::<char>::empty());
            let ix = if sel == 0 {
                a
            } else {
                b
            };
            // The empty match still matches everything, and resolves
            // nothing: every table word is non-empty.
            assert(ix.subsets@[0].wf());
            assert(ix.valid_pos(0, 0));
            assert(ix.word(0, 0).subrange(0, 0) =~= Seq::<char>::empty());
            assert(s1.is_prefix_of(ix.word(0, 0)));
            assert(ix.is_match(s1, 0, 0));
            assert(ix.some_match(s1));
            assert(!ix.resolves(s1)) by {
                if ix.resolves(s1) {
                    let (si, wi): (int, int) = choose|si: int, wi: int|
                        ix.is_match(s1, si, wi) && ix.word(si, wi).len() == s1.len()
                            && ix.only_match(s1, si, wi);
                    assert(ix.subsets@[si].wf());
                    assert(crate::index::word_ok(ix.word(si, wi)));
                    assert(false);
                }
            }
            lemma_empty_fold_run(a, b, sel, rest);
        }
    }
}

/// Folding a stream that folds to whitespace-free characters skips
/// nothing: its contribution is its full folded image.
pub proof fn lemma_stream_fold_no_ws(s: Seq<char>)
    requires
        forall|k: int|
            0 <= k < fold_seq(s).len() ==> fold_seq(s)[k] != ' ' && fold_seq(s)[k] != '\n'
                && fold_seq(s)[k] != '\r',
    ensures
        stream_fold(s) == fold_seq(s),
    decreases s.len(),
{
    if s.len() > 0 {
        let c = s[0];
        let rest = s.drop_first();
        assert(fold_seq(s) == fold_of(c) + fold_seq(rest));
        assert forall|k: int| 0 <= k < fold_seq(rest).len() implies fold_seq(rest)[k] != ' '
            && fold_seq(rest)[k] != '\n' && fold_seq(rest)[k] != '\r' by {
            assert(fold_seq(rest)[k] == fold_seq(s)[fold_of(c).len() + k]);
        }
        lemma_stream_fold_no_ws(rest);
        assert(!is_skip(c)) by {
            if is_skip(c) {
                assert(fold_of(c).len() == 1);
                assert(fold_seq(s)[0] == fold_of(c)[0]);
                assert(fold_of(c)[0] == ' ' || fold_of(c)[0] == '\n' || fold_of(c)[0] == '\r');
            }
        }
    }
}

/// A run splits at any point of its input: the second half starts from
/// the state the first half reaches, unless the first half already failed.
pub proof fn lemma_run_append(
    a: DecodeIndex,
    b: DecodeIndex,
    sel: u8,
    consumed: Seq<char>,
    x: Seq<char>,
    y: Seq<char>,
)
    ensures
        ({
            let rx = run_decoder(a, b, sel, consumed, x);
            let whole = run_decoder(a, b, sel, consumed, x + y);
            if rx.error {
                whole == rx
            } else {
                let ry = run_decoder(a, b, rx.sel, rx.consumed, y);
                whole == (RunResult {
                    emitted: rx.emitted + ry.emitted,
                    error: ry.error,
                    consumed: ry.consumed,
                    sel: ry.sel,
                })
            }
        }),
    decreases x.len(),
{
    if x.len() == 0 {
        assert(x + y =~= y);
        let ry = run_decoder(a, b, sel, consumed, y);
        assert(Seq::<u8>::empty() + ry.emitted =~= ry.emitted);
    } else {
        let c = x[0];
        let xr = x.drop_first();
        assert((x + y)[0] == c);
        assert((x + y).drop_first() =~= xr + y);
        if is_skip(c) {
            lemma_run_append(a, b, sel, consumed, xr, y);
        } else {
            let s1 = consumed + fold_of(c);
            let ix = if sel == 0 {
                a
            } else {
                b
            };
            if !ix.some_match(s1) {
                // Both runs fail at this very character.
            } else if ix.resolves(s1) {
                let byte = ix.resolved_byte(s1);
                let nsel: u8 = if sel == 0 {
                    1
                } else {
                    0
                };
                lemma_run_append(a, b, nsel, Seq::empty(), xr, y);
                let rxr = run_decoder(a, b, nsel, Seq::empty(), xr);
                if !rxr.error {
                    let ry = run_decoder(a, b, rxr.sel, rxr.consumed, y);
                    assert(seq![byte] + (rxr.emitted + ry.emitted) =~= (seq![byte] + rxr.emitted)
                        + ry.emitted);
                }
            } else {
                lemma_run_append(a, b, sel, s1, xr, y);
            }
        }
    }
}

/// Feeding a fragment whose folded contribution completes exactly one
/// table word of the active family — which holds it as no other word's
/// prefix — emits that word's byte and resets the decoder, flipping the
/// family selector.
pub proof fn lemma_word_run(
    a: DecodeIndex,
    b: DecodeIndex,
    sel: u8,
    w: Seq<char>,
    byte: u8,
    consumed0: Seq<char>,
    part: Seq<char>,
)
    requires
        a.wf(),
        b.wf(),
        a.n_subsets() >= 1,
        b.n_subsets() >= 1,
        sel == 0 || sel == 1,
        ({
            let ix = if sel == 0 {
                a
            } else {
                b
            };
            ix.prefix_free() && ix.has_entry(w, byte)
        }),
        consumed0.len() < w.len(),
        consumed0 + stream_fold(part) == w,
    ensures
        run_decoder(a, b, sel, consumed0, part) == (RunResult {
            emitted: seq![byte],
            error: false,
            consumed: Seq::<char>::empty(),
            sel: if sel == 0 {
                1u8
            } else {
                0u8
            },
        }),
    decreases part.len(),
{
    let ix = if sel == 0 {
        a
    } else {
        b
    };
    let nsel: u8 = if sel == 0 {
        1
    } else {
        0
    };
    assert(part.len() > 0) by {
        if part.len() == 0 {
            assert(stream_fold(part) =~= Seq::<char>::empty());
            assert(consumed0 + stream_fold(part) =~= consumed0);
        }
    }
    let c = part[0];
    let rest = part.drop_first();
    let (ei, ew): (int, int) = choose|si: int, wi: int|
        ix.valid_pos(si, wi) && ix.word(si, wi) == w && ix.byte_at(si, wi) == byte;
    if is_skip(c) {
        assert(stream_fold(part) == stream_fold(rest));
        lemma_word_run(a, b, sel, w, byte, consumed0, rest);
    } else {
        let s1 = consumed0 + fold_of(c);
        assert(stream_fold(part) == fold_of(c) + stream_fold(rest));
        assert(s1 + stream_fold(rest) =~= w);
        assert(w.subrange(0, s1.len() as int) =~= s1);
        assert(s1.is_prefix_of(w));
        assert(ix.is_match(s1, ei, ew));
        assert(ix.some_match(s1));
        if s1.len() == w.len() {
            assert(s1 =~= w);
            assert(stream_fold(rest).len() == 0);
            assert(stream_fold(rest) =~= Seq::<char>::empty());
            // The match is complete and, by prefix-freeness, unique.
            assert forall|sj: int, wj: int| ix.is_match(s1, sj, wj) implies sj == ei && wj
                == ew by {
                assert(ix.word(ei, ew).is_prefix_of(ix.word(sj, wj)));
            }
            assert(ix.only_match(s1, ei, ew));
            assert(ix.resolves(s1));
            assert(ix.resolved_byte(s1) == byte) by {
                let (ci, cw): (int, int) = choose|si: int, wi: int|
                    ix.is_match(s1, si, wi) && ix.word(si, wi).len() == s1.len() && ix.only_match(
                        s1,
                        si,
                        wi,
                    );
                assert(ix.is_match(s1, ci, cw));
                assert(ci == ei && cw == ew);
            }
            lemma_empty_fold_run(a, b, nsel, rest);
            assert(seq![byte] + Seq::<u8>::empty() =~= seq![byte]);
        } else {
            // A strict prefix of a table word resolves nothing: a complete
            // match would make one table word a prefix of another.
            assert(!ix.resolves(s1)) by {
                if ix.resolves(s1) {
                    let (ci, cw): (int, int) = choose|si: int, wi: int|
                        ix.is_match(s1, si, wi) && ix.word(si, wi).len() == s1.len()
                            && ix.only_match(s1, si, wi);
                    assert(ix.word(ci, cw).subrange(0, s1.len() as int) =~= ix.word(ci, cw));
                    assert(ix.word(ci, cw) == s1);
                    assert(ix.word(ci, cw).is_prefix_of(ix.word(ei, ew)));
                    assert(ci == ei && cw == ew);
                    assert(false);
                }
            }
            lemma_word_run(a, b, sel, w, byte, s1, rest);
        }
    }
}

/// The word-list family that position `j` of a stream draws from, when
/// the selector starts at `sel`.
pub open spec fn family(a: DecodeIndex, b: DecodeIndex, sel: u8, j: int) -> DecodeIndex {
    if (sel + j) % 2 == 0 {
        a
    } else {
        b
    }
}

/// The round trip, in its general form: a decoder run over any rendering
/// of an encoded byte sequence — each byte rendered as a fragment whose
/// folded contribution is exactly its table word, in the family its
/// position selects, with any skipped characters in between and after —
/// emits exactly those bytes, never fails, and ends reset. It requires
/// what holds of the bundled word lists: that no table word is a prefix
/// of another word of its family.
pub proof fn lemma_decode_renders(
    a: DecodeIndex,
    b: DecodeIndex,
    sel: u8,
    bytes: Seq<u8>,
    parts: Seq<Seq<char>>,
    tail: Seq<char>,
)
    requires
        a.wf(),
        b.wf(),
        a.prefix_free(),
        b.prefix_free(),
        a.n_subsets() >= 1,
        b.n_subsets() >= 1,
        sel == 0 || sel == 1,
        parts.len() == bytes.len(),
        forall|j: int|
            0 <= j < parts.len() ==> family(a, b, sel, j).has_entry(
                stream_fold(#[trigger] parts[j]),
                bytes[j],
            ),
        all_skip(tail),
    ensures
        run_decoder(a, b, sel, Seq::<char>::empty(), concat_parts(parts) + tail) == (RunResult {
            emitted: bytes,
            error: false,
            consumed: Seq::<char>::empty(),
            sel: ((sel + bytes.len()) % 2) as u8,
        }),
    decreases bytes.len(),
{
    if bytes.len() == 0 {
        assert(concat_parts(parts) =~= Seq::<char>::empty());
        assert(concat_parts(parts) + tail =~= tail);
        lemma_skip_run(a, b, sel, Seq::empty(), tail);
        assert(bytes =~= Seq::<u8>::empty());
        assert(((sel + 0) % 2) as u8 == sel);
    } else {
        let nsel: u8 = if sel == 0 {
            1
        } else {
            0
        };
        let w = stream_fold(parts[0]);
        let byte = bytes[0];
        assert(family(a, b, sel, 0).has_entry(w, byte));
        assert(family(a, b, sel, 0) == (if sel == 0 {
            a
        } else {
            b
        }));
        let ix = if sel == 0 {
            a
        } else {
            b
        };
        // The fragment's word is non-empty: it stands in the index.
        let (ei, ew): (int, int) = choose|si: int, wi: int|
            ix.valid_pos(si, wi) && ix.word(si, wi) == w && ix.byte_at(si, wi) == byte;
        assert(ix.subsets@[ei].wf());
        assert(crate::index::word_ok(w));
        assert(Seq::<char>::empty() + stream_fold(parts[0]) =~= w);
        let rest_stream = concat_parts(parts.drop_first()) + tail;
        assert(concat_parts(parts) + tail =~= parts[0] + rest_stream);
        lemma_run_append(a, b, sel, Seq::empty(), parts[0], rest_stream);
        lemma_word_run(a, b, sel, w, byte, Seq::empty(), parts[0]);
        assert forall|j: int| 0 <= j < parts.drop_first().len() implies family(
            a,
            b,
            nsel,
            j,
        ).has_entry(stream_fold(#[trigger] parts.drop_first()[j]), bytes.drop_first()[j]) by {
            assert(parts.drop_first()[j] == parts[j + 1]);
            assert(bytes.drop_first()[j] == bytes[j + 1]);
            assert(family(a, b, sel, j + 1).has_entry(stream_fold(parts[j + 1]), bytes[j + 1]));
            assert((nsel + j) % 2 == (sel + j + 1) % 2);
            assert(family(a, b, nsel, j) == family(a, b, sel, j + 1));
        }
        lemma_decode_renders(a, b, nsel, bytes.drop_first(), parts.drop_first(), tail);
        assert(seq![byte] + bytes.drop_first() =~= bytes);
        assert((nsel + bytes.drop_first().len()) % 2 == (sel + bytes.len()) % 2);
        let rx = run_decoder(a, b, sel, Seq::<char>::empty(), parts[0]);
        assert(!rx.error && rx.emitted == seq![byte] && rx.consumed == Seq::<char>::empty()
            && rx.sel == nsel);
        let ry = run_decoder(a, b, nsel, Seq::<char>::empty(), rest_stream);
        assert(ry.emitted == bytes.drop_first() && !ry.error && ry.consumed
            == Seq::<char>::empty());
        let whole = run_decoder(a, b, sel, Seq::<char>::empty(), parts[0] + rest_stream);
        assert(whole.emitted == rx.emitted + ry.emitted);
        assert(whole.emitted == bytes);
        assert(whole == (RunResult {
            emitted: bytes,
            error: false,
            consumed: Seq::<char>::empty(),
            sel: ((sel + bytes.len()) % 2) as u8,
        }));
        assert(run_decoder(a, b, sel, Seq::<char>::empty(), concat_parts(parts) + tail) == whole);
    }
}

/// Whitespace invariance: two renderings of the same byte sequence that
/// differ only in where skipped characters stand — within words, between
/// words, or after them — decode to the same bytes.
pub proof fn lemma_whitespace_invariance(
    a: DecodeIndex,
    b: DecodeIndex,
    sel: u8,
    bytes: Seq<u8>,
    parts1: Seq<Seq<char>>,
    tail1: Seq<char>,
    parts2: Seq<Seq<char>>,
    tail2: Seq<char>,
)
    requires
        a.wf(),
        b.wf(),
        a.prefix_free(),
        b.prefix_free(),
        a.n_subsets() >= 1,
        b.n_subsets() >= 1,
        sel == 0 || sel == 1,
        parts1.len() == bytes.len(),
        parts2.len() == bytes.len(),
        forall|j: int|
            0 <= j < parts1.len() ==> family(a, b, sel, j).has_entry(
                stream_fold(#[trigger] parts1[j]),
                bytes[j],
            ),
        forall|j: int|
            0 <= j < parts2.len() ==> family(a, b, sel, j).has_entry(
                stream_fold(#[trigger] parts2[j]),
                bytes[j],
            ),
        all_skip(tail1),
        all_skip(tail2),
    ensures
        run_decoder(a, b, sel, Seq::<char>::empty(), concat_parts(parts1) + tail1) == run_decoder(
            a,
            b,
            sel,
            Seq::<char>::empty(),
            concat_parts(parts2) + tail2,
        ),
        run_decoder(a, b, sel, Seq::<char>::empty(), concat_parts(parts1) + tail1).emitted
            == bytes,
        !run_decoder(a, b, sel, Seq::<char>::empty(), concat_parts(parts1) + tail1).error,
{
    lemma_decode_renders(a, b, sel, bytes, parts1, tail1);
    lemma_decode_renders(a, b, sel, bytes, parts2, tail2);
}

/// Case invariance: two streams whose characters fold alike — as a stream
/// and its uniformly upper-cased, lower-cased or mixed-case form do, since
/// an ASCII letter folds to its lowercase form whatever its case — decode
/// identically, byte for byte and error for error.
pub proof fn lemma_case_invariance(
    a: DecodeIndex,
    b: DecodeIndex,
    sel: u8,
    consumed: Seq<char>,
    s1: Seq<char>,
    s2: Seq<char>,
)
    requires
        s1.len() == s2.len(),
        forall|i: int| 0 <= i < s1.len() ==> fold_of(#[trigger] s1[i]) == fold_of(s2[i]),
    ensures
        run_decoder(a, b, sel, consumed, s1) == run_decoder(a, b, sel, consumed, s2),
    decreases s1.len(),
{
    if s1.len() > 0 {
        assert(fold_of(s1[0]) == fold_of(s2[0]));
        assert(is_skip(s1[0]) == is_skip(s2[0]));
        assert forall|i: int| 0 <= i < s1.drop_first().len() implies fold_of(
            #[trigger] s1.drop_first()[i],
        ) == fold_of(s2.drop_first()[i]) by {
            assert(s1.drop_first()[i] == s1[i + 1]);
            assert(s2.drop_first()[i] == s2[i + 1]);
        }
        if is_skip(s1[0]) {
            lemma_case_invariance(a, b, sel, consumed, s1.drop_first(), s2.drop_first());
        } else {
            let t = consumed + fold_of(s1[0]);
            let ix = if sel == 0 {
                a
            } else {
                b
            };
            if !ix.some_match(t) {
            } else if ix.resolves(t) {
                let nsel: u8 = if sel == 0 {
                    1
                } else {
                    0
                };
                lemma_case_invariance(a, b, nsel, Seq::empty(), s1.drop_first(), s2.drop_first());
            } else {
                lemma_case_invariance(a, b, sel, t, s1.drop_first(), s2.drop_first());
            }
        }
    }
}

/// Rejection: the moment the consumed characters, extended by a character
/// that is not skipped, are a prefix of no word of the active family, the
/// whole run fails — whatever follows.
pub proof fn lemma_rejection(
    a: DecodeIndex,
    b: DecodeIndex,
    sel: u8,
    consumed: Seq<char>,
    input: Seq<char>,
    i: int,
)
    requires
        0 <= i < input.len(),
        !run_decoder(a, b, sel, consumed, input.take(i)).error,
        !is_skip(input[i]),
        ({
            let rp = run_decoder(a, b, sel, consumed, input.take(i));
            let ix = if rp.sel == 0 {
                a
            } else {
                b
            };
            !ix.some_match(rp.consumed + fold_of(input[i]))
        }),
    ensures
        run_decoder(a, b, sel, consumed, input).error,
{
    let rp = run_decoder(a, b, sel, consumed, input.take(i));
    let rest = input.skip(i);
    assert(input.take(i) + rest =~= input);
    lemma_run_append(a, b, sel, consumed, input.take(i), rest);
    assert(rest[0] == input[i]);
    assert(run_decoder(a, b, rp.sel, rp.consumed, rest).error);
}

/// The characters of a string slice, as a vector.
fn str_chars(s: &str) -> (r: Vec<char>)
    ensures
        r@ == s@,
{
    let n = s.unicode_len();
    let mut r: Vec<char> = Vec::new();
    let mut i: usize = 0;
    proof {
        assert(s@.take(0) =~= Seq::<char>::empty());
    }
    while i < n
        invariant
            n == s@.len(),
            i <= n,
            r@ == s@.take(i as int),
        decreases n - i,
    {
        let c = s.get_char(i);
        r.push(c);
        proof {
            assert(s@.take(i + 1) =~= s@.take(i as int).push(s@[i as int]));
        }
        i = i + 1;
    }
    proof {
        assert(s@.take(n as int) =~= s@);
    }
    r
}

/// Renders a word sequence as one character stream, a single space after
/// every word.
fn render_words(ws: &Vec<&'static str>) -> (res: (Vec<char>, Ghost<Seq<Seq<char>>>))
    ensures
        res.1@.len() == ws@.len(),
        forall|k: int| 0 <= k < ws@.len() ==> res.1@[k] == (#[trigger] ws@[k])@ + seq![' '],
        res.0@ == concat_parts(res.1@),
{
    let mut stream: Vec<char> = Vec::new();
    let ghost mut parts: Seq<Seq<char>> = Seq::empty();
    let mut j: usize = 0;
    proof {
        assert(concat_parts(parts) =~= Seq::<char>::empty());
    }
    while j < ws.len()
        invariant
            j <= ws@.len(),
            parts.len() == j,
            forall|k: int| 0 <= k < j ==> parts[k] == (#[trigger] ws@[k])@ + seq![' '],
            stream@ == concat_parts(parts),
        decreases ws@.len() - j,
    {
        let w: &str = ws[j];
        let mut wchars = str_chars(w);
        let ghost part = w@ + seq![' '];
        let ghost parts0 = parts;
        let ghost stream0 = stream@;
        stream.append(&mut wchars);
        stream.push(' ');
        proof {
            parts = parts.push(part);
            lemma_concat_parts_push(parts0, part);
            assert(stream@ =~= stream0 + part);
            assert(stream@ == concat_parts(parts));
        }
        j = j + 1;
    }
    (stream, Ghost(parts))
}

/// Encodes a byte sequence with the EFF-style scheme, renders the words
/// with single separating spaces, and decodes the rendering. The result
/// is exactly the input — the round trip, end to end — whenever the
/// bundled word list is a valid, prefix-free decode table, which is also
/// checked here at run time.
pub fn eff_round_trip(bytes: &Vec<u8>) -> (r: Option<Vec<u8>>)
    ensures
        r matches Some(out) ==> out@ == bytes@,
        (r matches Some(_)) <==> (list_valid(eff_words()) && table_prefix_free(
            fold_table(eff_words()),
        )),
{
    let ghost t = fold_table(eff_words());
    let enc = EffEncode::from_words(wl_eff_encode());
    let mut dec = match EffDecode::from_words(&wl_eff_encode()) {
        Ok(d) => d,
        Err(_) => {
            return None;
        },
    };
    proof {
        lemma_prefix_free_iff(dec.index, t);
    }
    if !dec.index.is_prefix_free() {
        return None;
    }
    let ws = enc.encode_all(bytes);
    let (stream, gparts) = render_words(&ws);
    let ghost parts = gparts@;
    let space_fold = lowercase_chars(' ');
    proof {
        assert(is_skip(' ')) by {
            assert(space_fold@ == seq![crate::fold::ascii_lower(' ')]);
            assert(crate::fold::ascii_lower(' ') == ' ');
            assert(fold_of(' ') =~= seq![' ']);
        }
        assert(dec.index.n_subsets() >= 1) by {
            assert(dec.index.has_byte(0));
            let (si, wi): (int, int) = choose|si: int, wi: int|
                dec.index.valid_pos(si, wi) && dec.index.byte_at(si, wi) == 0;
        }
        assert forall|j: int| 0 <= j < parts.len() implies family(
            dec.index,
            dec.index,
            0,
            j,
        ).has_entry(stream_fold(#[trigger] parts[j]), bytes@[j]) by {
            let b = bytes@[j] as int;
            let w: &str = ws@[j];
            assert(w@ == eff_words()[b]@);
            assert(t[b] == fold_seq(eff_words()[b]@));
            assert(crate::index::word_ok(t[b]));
            lemma_stream_fold_no_ws(w@);
            assert(stream_fold(w@) == t[b]);
            lemma_stream_fold_add(w@, seq![' ']);
            assert(parts[j] == w@ + seq![' ']);
            assert(stream_fold(seq![' ']) =~= Seq::<char>::empty()) by {
                assert(seq![' '].drop_first() =~= Seq::<char>::empty());
                assert(stream_fold(Seq::<char>::empty()) =~= Seq::<char>::empty());
                assert(seq![' '][0] == ' ');
                assert(is_skip(seq![' '][0]));
                assert(stream_fold(seq![' ']) == stream_fold(seq![' '].drop_first()));
            }
            assert(stream_fold(parts[j]) =~= t[b]);
            assert(dec.index.has_byte(b));
            let (si, wi): (int, int) = choose|si: int, wi: int|
                dec.index.valid_pos(si, wi) && dec.index.byte_at(si, wi) == b;
            assert(dec.index.word(si, wi) == t[b]);
            assert(dec.index.has_entry(t[b], bytes@[j]));
            assert(family(dec.index, dec.index, 0, j) == dec.index);
        }
        lemma_decode_renders(dec.index, dec.index, 0, bytes@, parts, Seq::empty());
        assert(concat_parts(parts) + Seq::<char>::empty() =~= concat_parts(parts));
        assert(run_decoder(dec.index, dec.index, 0, Seq::<char>::empty(), stream@).emitted
            == bytes@);
        assert(!run_decoder(dec.index, dec.index, 0, Seq::<char>::empty(), stream@).error);
    }
    match dec.decode_all(&stream) {
        Ok(out) => Some(out),
        Err(_) => {
            proof {
                assert(false);
            }
            None
        },
    }
}

/// Encodes a byte sequence with the paired two- and three-syllable
/// scheme, renders the words with single separating spaces, and decodes
/// the rendering. The result is exactly the input whenever both bundled
/// word lists are valid, prefix-free decode tables, which is also checked
/// here at run time.
pub fn pgp_round_trip(bytes: &Vec<u8>) -> (r: Option<Vec<u8>>)
    ensures
        r matches Some(out) ==> out@ == bytes@,
        (r matches Some(_)) <==> (list_valid(pgp_two_syllable_words()) && list_valid(
            pgp_three_syllable_words(),
        ) && table_prefix_free(fold_table(pgp_two_syllable_words())) && table_prefix_free(
            fold_table(pgp_three_syllable_words()),
        )),
{
    let ghost t2 = fold_table(pgp_two_syllable_words());
    let ghost t3 = fold_table(pgp_three_syllable_words());
    let mut enc = PgpEncode::from_words(
        wl_pgp_encode_two_syllable(),
        wl_pgp_encode_three_syllable(),
    );
    let mut dec = match PgpDecode::from_words(
        &wl_pgp_encode_two_syllable(),
        &wl_pgp_encode_three_syllable(),
    ) {
        Ok(d) => d,
        Err(_) => {
            return None;
        },
    };
    proof {
        lemma_prefix_free_iff(dec.two_syllable, t2);
        lemma_prefix_free_iff(dec.three_syllable, t3);
    }
    if !dec.two_syllable.is_prefix_free() {
        return None;
    }
    if !dec.three_syllable.is_prefix_free() {
        return None;
    }
    let ws = enc.encode_all(bytes);
    let (stream, gparts) = render_words(&ws);
    let ghost parts = gparts@;
    let space_fold = lowercase_chars(' ');
    proof {
        assert(is_skip(' ')) by {
            assert(space_fold@ == seq![crate::fold::ascii_lower(' ')]);
            assert(crate::fold::ascii_lower(' ') == ' ');
            assert(fold_of(' ') =~= seq![' ']);
        }
        assert(dec.two_syllable.n_subsets() >= 1) by {
            assert(dec.two_syllable.has_byte(0));
            let (si, wi): (int, int) = choose|si: int, wi: int|
                dec.two_syllable.valid_pos(si, wi) && dec.two_syllable.byte_at(si, wi) == 0;
        }
        assert(dec.three_syllable.n_subsets() >= 1) by {
            assert(dec.three_syllable.has_byte(0));
            let (si, wi): (int, int) = choose|si: int, wi: int|
                dec.three_syllable.valid_pos(si, wi) && dec.three_syllable.byte_at(si, wi) == 0;
        }
        assert forall|j: int| 0 <= j < parts.len() implies family(
            dec.two_syllable,
            dec.three_syllable,
            0,
            j,
        ).has_entry(stream_fold(#[trigger] parts[j]), bytes@[j]) by {
            let b = bytes@[j] as int;
            let w: &str = ws@[j];
            let fam = family(dec.two_syllable, dec.three_syllable, 0, j);
            let ghost tf = if (0 + j) % 2 == 0 {
                t2
            } else {
                t3
            };
            if (0 + j) % 2 == 0 {
                assert(w@ == pgp_two_syllable_words()[b]@);
                assert(tf[b] == fold_seq(pgp_two_syllable_words()[b]@));
            } else {
                assert(w@ == pgp_three_syllable_words()[b]@);
                assert(tf[b] == fold_seq(pgp_three_syllable_words()[b]@));
            }
            assert(crate::index::word_ok(tf[b]));
            lemma_stream_fold_no_ws(w@);
            assert(stream_fold(w@) == tf[b]);
            lemma_stream_fold_add(w@, seq![' ']);
            assert(parts[j] == w@ + seq![' ']);
            assert(stream_fold(seq![' ']) =~= Seq::<char>::empty()) by {
                assert(seq![' '].drop_first() =~= Seq::<char>::empty());
                assert(stream_fold(Seq::<char>::empty()) =~= Seq::<char>::empty());
                assert(seq![' '][0] == ' ');
                assert(is_skip(seq![' '][0]));
                assert(stream_fold(seq![' ']) == stream_fold(seq![' '].drop_first()));
            }
            assert(stream_fold(parts[j]) =~= tf[b]);
            assert(fam.has_byte(b));
            let (si, wi): (int, int) = choose|si: int, wi: int|
                fam.valid_pos(si, wi) && fam.byte_at(si, wi) == b;
            assert(fam.word(si, wi) == tf[b]);
            assert(fam.has_entry(tf[b], bytes@[j]));
        }
        lemma_decode_renders(
            dec.two_syllable,
            dec.three_syllable,
            0,
            bytes@,
            parts,
            Seq::empty(),
        );
        assert(concat_parts(parts) + Seq::<char>::empty() =~= concat_parts(parts));
    }
    match dec.decode_all(&stream) {
        Ok(out) => Some(out),
        Err(_) => {
            proof {
                assert(false);
            }
            None
        },
    }
}

} // verus!
