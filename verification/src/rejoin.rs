//! Joining words with single tabs, and splitting what was joined.

use crate::escape::{
    escape_run, is_break, is_escaped, lemma_escape_run_rebase, lemma_next_break_found,
    lemma_next_break_is, lemma_next_content_found, lemma_next_content_is, next_break,
    next_content, WORD_DELIM,
};
use crate::words::{span_bytes, word_spans};
use vstd::prelude::*;

verus! {

/// The words `ws` with one tab between each two of them.
pub open spec fn join_words(ws: Seq<Seq<u8>>) -> Seq<u8>
    decreases ws.len(),
{
    if ws.len() == 0 {
        Seq::empty()
    } else if ws.len() == 1 {
        ws[0]
    } else {
        ws[0] + seq![WORD_DELIM] + join_words(ws.drop_first())
    }
}

/// The words of the bytes `b`, scanned as a whole.
pub open spec fn words_of(b: Seq<u8>, lines: bool) -> Seq<Seq<u8>> {
    span_bytes(b, word_spans(b, 0, b.len() as int, lines))
}

/// The bytes `w` are one word: there is a byte, and no split point.
pub open spec fn is_whole_word(w: Seq<u8>, lines: bool) -> bool {
    &&& w.len() > 0
    &&& forall|k: int| 0 <= k < w.len() ==> !is_break(w, 0, w.len() as int, WORD_DELIM, lines, k)
}

/// Each of `ws` is one word, and a tab behind any of them but the last
/// would split.
pub open spec fn rejoinable(ws: Seq<Seq<u8>>, lines: bool) -> bool {
    forall|i: int|
        0 <= i < ws.len() ==> is_whole_word(#[trigger] ws[i], lines) && (i + 1 < ws.len()
            ==> !is_escaped(ws[i], 0, ws[i].len() as int))
}

/// The escape bytes before an index are those of the part that holds it.
pub proof fn lemma_escape_run_part(b: Seq<u8>, s: int, e: int, i: int)
    requires
        0 <= s <= i <= e <= b.len(),
    ensures
        escape_run(b.subrange(s, e), 0, i - s) == escape_run(b, s, i),
    decreases i - s,
{
    if s < i {
        assert(b.subrange(s, e)[i - s - 1] == b[i - 1]);
        lemma_escape_run_part(b, s, e, i - 1);
    }
}

/// The split points of a span are those of the span taken by itself.
pub proof fn lemma_break_part(b: Seq<u8>, lo: int, hi: int, lines: bool, i: int)
    requires
        0 <= lo <= i < hi <= b.len(),
    ensures
        is_break(b.subrange(lo, hi), 0, hi - lo, WORD_DELIM, lines, i - lo) == is_break(
            b,
            lo,
            hi,
            WORD_DELIM,
            lines,
            i,
        ),
{
    let part = b.subrange(lo, hi);
    lemma_escape_run_part(b, lo, hi, i);
    assert(part[i - lo] == b[i]);
    if i + 1 < hi {
        assert(part[i - lo + 1] == b[i + 1]);
    }
}

/// The words of a span are, byte for byte, those of the span taken by
/// itself.
pub proof fn lemma_words_of_part(b: Seq<u8>, lo: int, hi: int, lines: bool)
    requires
        0 <= lo <= hi <= b.len(),
    ensures
        span_bytes(b, word_spans(b, lo, hi, lines)) == words_of(b.subrange(lo, hi), lines),
    decreases hi - lo,
{
    let d = WORD_DELIM;
    let part = b.subrange(lo, hi);
    let n = hi - lo;
    assert forall|k: int| 0 <= k < n implies is_break(part, 0, n, d, lines, k) == is_break(
        b,
        lo,
        hi,
        d,
        lines,
        lo + k,
    ) by {
        lemma_break_part(b, lo, hi, lines, lo + k);
    }
    let s = next_content(b, lo, hi, d, lines, lo);
    let e = next_break(b, lo, hi, d, lines, s);
    lemma_next_content_found(b, lo, hi, d, lines, lo);
    lemma_next_content_is(part, 0, n, d, lines, 0, s - lo);
    if s < hi {
        lemma_next_break_found(b, lo, hi, d, lines, s);
        lemma_next_break_found(b, lo, hi, d, lines, s + 1);
        lemma_next_break_is(part, 0, n, d, lines, s - lo, e - lo);
        lemma_words_of_part(b, e, hi, lines);
        lemma_words_of_part(part, e - lo, n, lines);
        assert(part.subrange(e - lo, n) =~= b.subrange(e, hi));
        assert(part.subrange(s - lo, e - lo) =~= b.subrange(s, e));
        let rest = word_spans(b, e, hi, lines);
        let part_rest = word_spans(part, e - lo, n, lines);
        assert(span_bytes(b, rest).len() == span_bytes(part, part_rest).len());
        assert(word_spans(b, lo, hi, lines) =~= seq![(s, e)] + rest);
        assert(word_spans(part, 0, n, lines) =~= seq![(s - lo, e - lo)] + part_rest);
        assert(span_bytes(b, word_spans(b, lo, hi, lines)) =~= seq![b.subrange(s, e)]
            + span_bytes(b, rest));
        assert(span_bytes(part, word_spans(part, 0, n, lines)) =~= seq![
            part.subrange(s - lo, e - lo),
        ] + span_bytes(part, part_rest));
    } else {
        assert(word_spans(b, lo, hi, lines) =~= Seq::empty());
        assert(word_spans(part, 0, n, lines) =~= Seq::empty());
        assert(span_bytes(b, word_spans(b, lo, hi, lines)) =~= words_of(part, lines));
    }
}

/// A split point at the start of a span can be left out of it.
pub proof fn lemma_skip_leading_break(b: Seq<u8>, lo: int, hi: int, lines: bool)
    requires
        0 <= lo < hi <= b.len(),
        is_break(b, lo, hi, WORD_DELIM, lines, lo),
    ensures
        word_spans(b, lo, hi, lines) == word_spans(b, lo + 1, hi, lines),
{
    let d = WORD_DELIM;
    let next = lo + 1;
    assert forall|k: int| next <= k < hi implies is_break(b, lo, hi, d, lines, k) == #[trigger] is_break(
        b,
        next,
        hi,
        d,
        lines,
        k,
    ) by {
        lemma_escape_run_rebase(b, lo, next, k);
    }
    let s = next_content(b, lo, hi, d, lines, lo);
    let e = next_break(b, lo, hi, d, lines, s);
    lemma_next_content_found(b, lo, hi, d, lines, lo);
    assert(s == next_content(b, lo, hi, d, lines, lo + 1));
    lemma_next_content_is(b, lo + 1, hi, d, lines, lo + 1, s);
    if s < hi {
        lemma_next_break_found(b, lo, hi, d, lines, s);
        lemma_next_break_is(b, lo + 1, hi, d, lines, s, e);
    }
}

/// The words of a line are words, and a tab behind any of them but the
/// last would split.
pub proof fn lemma_words_rejoinable(b: Seq<u8>, lo: int, hi: int)
    requires
        0 <= lo <= hi <= b.len(),
    ensures
        rejoinable(span_bytes(b, word_spans(b, lo, hi, false)), false),
    decreases hi - lo,
{
    let d = WORD_DELIM;
    let s = next_content(b, lo, hi, d, false, lo);
    let e = next_break(b, lo, hi, d, false, s);
    let all = span_bytes(b, word_spans(b, lo, hi, false));
    lemma_next_content_found(b, lo, hi, d, false, lo);
    if s < hi {
        lemma_next_break_found(b, lo, hi, d, false, s);
        lemma_next_break_found(b, lo, hi, d, false, s + 1);
        lemma_words_rejoinable(b, e, hi);
        let rest = span_bytes(b, word_spans(b, e, hi, false));
        let w = b.subrange(s, e);
        assert(all =~= seq![w] + rest);
        if s > lo {
            assert(is_break(b, lo, hi, d, false, s - 1));
        }
        assert forall|k: int| 0 <= k < w.len() implies !is_break(
            w,
            0,
            w.len() as int,
            d,
            false,
            k,
        ) by {
            assert(!is_break(b, lo, hi, d, false, s + k));
            lemma_escape_run_rebase(b, lo, s, s + k);
            lemma_escape_run_part(b, s, e, s + k);
            assert(w[k] == b[s + k]);
        }
        if rest.len() > 0 {
            if e == hi {
                assert(word_spans(b, hi, hi, false) =~= Seq::empty());
            }
            assert(is_break(b, lo, hi, d, false, e));
            lemma_escape_run_rebase(b, lo, s, e);
            lemma_escape_run_part(b, s, e, e);
        }
        assert forall|i: int| 0 <= i < all.len() implies is_whole_word(#[trigger] all[i], false)
            && (i + 1 < all.len() ==> !is_escaped(all[i], 0, all[i].len() as int)) by {
            if i > 0 {
                assert(all[i] == rest[i - 1]);
            }
        }
    } else {
        assert(all =~= Seq::empty());
    }
}

/// Words that are joined with single tabs split into themselves again.
pub proof fn lemma_join_then_split(ws: Seq<Seq<u8>>, lines: bool)
    requires
        rejoinable(ws, lines),
    ensures
        words_of(join_words(ws), lines) == ws,
    decreases ws.len(),
{
    let d = WORD_DELIM;
    let joined = join_words(ws);
    let n = joined.len() as int;
    if ws.len() == 0 {
        assert(words_of(joined, lines) =~= ws);
    } else {
        let w = ws[0];
        let m = w.len() as int;
        assert(is_whole_word(w, lines));
        assert(joined.subrange(0, m) =~= w);
        assert forall|k: int| 0 <= k < m implies !is_break(joined, 0, n, d, lines, k) by {
            assert(!is_break(w, 0, m, d, lines, k));
            lemma_escape_run_part(joined, 0, m, k);
            assert(w[k] == joined[k]);
            if k + 1 < m {
                assert(w[k + 1] == joined[k + 1]);
            }
        }
        lemma_next_content_is(joined, 0, n, d, lines, 0, 0);
        if ws.len() == 1 {
            lemma_next_break_is(joined, 0, n, d, lines, 0, n);
            assert(word_spans(joined, n, n, lines) =~= Seq::empty());
            assert(word_spans(joined, 0, n, lines) =~= seq![(0int, n)]);
            assert(words_of(joined, lines) =~= ws);
        } else {
            let tail = join_words(ws.drop_first());
            assert(joined =~= w + seq![d] + tail);
            assert(joined[m] == d);
            lemma_escape_run_part(joined, 0, m, m);
            assert(is_break(joined, 0, n, d, lines, m));
            lemma_next_break_is(joined, 0, n, d, lines, 0, m);
            assert(word_spans(joined, 0, n, lines) =~= seq![(0int, m)] + word_spans(
                joined,
                m,
                n,
                lines,
            ));
            assert(is_break(joined, m, n, d, lines, m));
            lemma_skip_leading_break(joined, m, n, lines);
            lemma_words_of_part(joined, m + 1, n, lines);
            assert(joined.subrange(m + 1, n) =~= tail);
            assert forall|i: int| 0 <= i < ws.drop_first().len() implies is_whole_word(
                #[trigger] ws.drop_first()[i],
                lines,
            ) && (i + 1 < ws.drop_first().len() ==> !is_escaped(
                ws.drop_first()[i],
                0,
                ws.drop_first()[i].len() as int,
            )) by {
                assert(ws.drop_first()[i] == ws[i + 1]);
            }
            lemma_join_then_split(ws.drop_first(), lines);
            assert(words_of(joined, lines) =~= seq![w] + words_of(tail, lines));
            assert(words_of(joined, lines) =~= ws);
        }
    }
}

/// Splitting a line into words, joining them with single tabs and
/// splitting again gives the same words.
pub proof fn lemma_split_join_split(b: Seq<u8>)
    ensures
        words_of(join_words(words_of(b, false)), false) == words_of(b, false),
{
    lemma_words_rejoinable(b, 0, b.len() as int);
    lemma_join_then_split(words_of(b, false), false);
}

} // verus!
