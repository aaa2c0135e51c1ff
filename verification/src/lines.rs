//! A text of several lines, scanned line by line.

use crate::escape::{
    is_break, lemma_break_rebase, lemma_break_shrink, lemma_escape_run_rebase,
    lemma_next_break_found, lemma_next_break_is, lemma_next_content_found,
    lemma_next_content_is, next_break, next_content, CARRIAGE_RETURN, NEWLINE, WORD_DELIM,
};
use crate::rejoin::lemma_skip_leading_break;
use crate::words::word_spans;
use vstd::prelude::*;

verus! {

/// The offset of the first newline of `lo..hi`, or `hi` where there is
/// none.
pub open spec fn line_end(b: Seq<u8>, lo: int, hi: int) -> int
    decreases hi - lo,
{
    if lo < hi && b[lo] != NEWLINE {
        line_end(b, lo + 1, hi)
    } else {
        lo
    }
}

/// The offset at which the first line of `lo..hi` ends, its line ending
/// left out: a newline, and the carriage return directly before it.
pub open spec fn line_content_end(b: Seq<u8>, lo: int, hi: int) -> int {
    let end = line_end(b, lo, hi);
    if lo < end < hi && b[end - 1] == CARRIAGE_RETURN {
        end - 1
    } else {
        end
    }
}

/// The offset at which the second line of `lo..hi` starts, or `hi` where
/// there is one line only.
pub open spec fn next_line(b: Seq<u8>, lo: int, hi: int) -> int {
    let end = line_end(b, lo, hi);
    if end < hi {
        end + 1
    } else {
        hi
    }
}

/// The words of `lo..hi`, found by scanning each of its lines by itself
/// and putting the words of the lines in a row.
pub open spec fn line_word_spans(b: Seq<u8>, lo: int, hi: int) -> Seq<(int, int)>
    decreases hi - lo,
    via line_word_spans_decreases
{
    if lo < hi {
        word_spans(b, lo, line_content_end(b, lo, hi), false) + line_word_spans(
            b,
            next_line(b, lo, hi),
            hi,
        )
    } else {
        Seq::empty()
    }
}

#[via_fn]
proof fn line_word_spans_decreases(b: Seq<u8>, lo: int, hi: int) {
    if lo < hi {
        lemma_line_end_found(b, lo, hi);
    }
}

/// What `line_end` returns: an offset from `lo` to `hi` with no newline
/// before it and a newline at it, unless it is `hi`.
pub proof fn lemma_line_end_found(b: Seq<u8>, lo: int, hi: int)
    requires
        lo <= hi,
    ensures
        lo <= line_end(b, lo, hi) <= hi,
        forall|k: int| lo <= k < line_end(b, lo, hi) ==> b[k] != NEWLINE,
        line_end(b, lo, hi) < hi ==> b[line_end(b, lo, hi)] == NEWLINE,
    decreases hi - lo,
{
    if lo < hi && b[lo] != NEWLINE {
        lemma_line_end_found(b, lo + 1, hi);
    }
}

/// A stretch of split points at the start of a span can be left out of
/// it.
pub proof fn lemma_skip_leading_breaks(b: Seq<u8>, lo: int, m: int, hi: int, lines: bool)
    requires
        0 <= lo <= m <= hi <= b.len(),
        forall|k: int| lo <= k < m ==> is_break(b, lo, hi, WORD_DELIM, lines, k),
    ensures
        word_spans(b, lo, hi, lines) == word_spans(b, m, hi, lines),
    decreases m - lo,
{
    if lo < m {
        assert(is_break(b, lo, hi, WORD_DELIM, lines, lo));
        lemma_skip_leading_break(b, lo, hi, lines);
        let next = lo + 1;
        assert forall|k: int| next <= k < m implies is_break(b, next, hi, WORD_DELIM, lines, k) by {
            assert(is_break(b, lo, hi, WORD_DELIM, lines, k));
            lemma_escape_run_rebase(b, lo, next, k);
        }
        lemma_skip_leading_breaks(b, next, m, hi, lines);
    }
}

/// A span falls into two at a stretch of split points: its words are those
/// before the stretch and then those behind it.
pub proof fn lemma_spans_split(b: Seq<u8>, lo: int, m1: int, m2: int, hi: int, lines: bool)
    requires
        0 <= lo <= m1 < m2 <= hi <= b.len(),
        forall|k: int| m1 <= k < m2 ==> is_break(b, lo, hi, WORD_DELIM, lines, k),
        !(lines && m1 > lo && b[m1 - 1] == CARRIAGE_RETURN && b[m1] == NEWLINE),
    ensures
        word_spans(b, lo, hi, lines) == word_spans(b, lo, m1, lines) + word_spans(
            b,
            m2,
            hi,
            lines,
        ),
    decreases hi - lo,
{
    let d = WORD_DELIM;
    assert forall|k: int| lo <= k < m1 implies is_break(b, lo, hi, d, lines, k) == #[trigger] is_break(
        b,
        lo,
        m1,
        d,
        lines,
        k,
    ) by {
        lemma_break_shrink(b, lo, m1, hi, d, lines, k);
    }
    assert(is_break(b, lo, hi, d, lines, m1));
    let s = next_content(b, lo, hi, d, lines, lo);
    lemma_next_content_found(b, lo, hi, d, lines, lo);
    if s >= m1 {
        assert forall|k: int| lo <= k < m2 implies is_break(b, lo, hi, d, lines, k) by {}
        lemma_skip_leading_breaks(b, lo, m2, hi, lines);
        lemma_next_content_is(b, lo, m1, d, lines, lo, m1);
        assert(word_spans(b, lo, m1, lines) =~= Seq::empty());
        assert(word_spans(b, lo, hi, lines) =~= word_spans(b, lo, m1, lines) + word_spans(
            b,
            m2,
            hi,
            lines,
        ));
    } else {
        let e = next_break(b, lo, hi, d, lines, s);
        lemma_next_break_found(b, lo, hi, d, lines, s);
        assert(e <= m1);
        lemma_next_content_is(b, lo, m1, d, lines, lo, s);
        lemma_next_break_is(b, lo, m1, d, lines, s, e);
        assert forall|k: int| e <= k < hi implies is_break(b, lo, hi, d, lines, k) == #[trigger] is_break(
            b,
            e,
            hi,
            d,
            lines,
            k,
        ) by {
            lemma_break_rebase(b, lo, e, hi, d, lines, k);
        }
        if e < m1 {
            lemma_spans_split(b, e, m1, m2, hi, lines);
        } else {
            lemma_skip_leading_breaks(b, e, m2, hi, lines);
            assert(word_spans(b, m1, m1, lines) =~= Seq::empty());
        }
        assert(word_spans(b, lo, hi, lines) =~= seq![(s, e)] + word_spans(b, e, hi, lines));
        assert(word_spans(b, lo, m1, lines) =~= seq![(s, e)] + word_spans(b, e, m1, lines));
        assert(word_spans(b, lo, hi, lines) =~= word_spans(b, lo, m1, lines) + word_spans(
            b,
            m2,
            hi,
            lines,
        ));
    }
}

/// In a span without a newline, line endings split nothing.
pub proof fn lemma_one_line(b: Seq<u8>, lo: int, hi: int)
    requires
        0 <= lo <= hi <= b.len(),
        forall|k: int| lo <= k < hi ==> b[k] != NEWLINE,
    ensures
        word_spans(b, lo, hi, true) == word_spans(b, lo, hi, false),
    decreases hi - lo,
{
    let d = WORD_DELIM;
    assert forall|k: int| lo <= k < hi implies is_break(b, lo, hi, d, true, k) == #[trigger] is_break(
        b,
        lo,
        hi,
        d,
        false,
        k,
    ) by {}
    let s = next_content(b, lo, hi, d, true, lo);
    lemma_next_content_found(b, lo, hi, d, true, lo);
    lemma_next_content_is(b, lo, hi, d, false, lo, s);
    if s < hi {
        let e = next_break(b, lo, hi, d, true, s);
        lemma_next_break_found(b, lo, hi, d, true, s);
        lemma_next_break_found(b, lo, hi, d, true, s + 1);
        lemma_next_break_is(b, lo, hi, d, false, s, e);
        lemma_one_line(b, e, hi);
    }
}

/// Scanning a text with line endings as split points finds the words that
/// scanning each of its lines by itself finds, in the order of the lines.
pub proof fn lemma_lines_flatten(b: Seq<u8>, lo: int, hi: int)
    requires
        0 <= lo <= hi <= b.len(),
    ensures
        word_spans(b, lo, hi, true) == line_word_spans(b, lo, hi),
    decreases hi - lo,
{
    if lo < hi {
        let end = line_end(b, lo, hi);
        let content = line_content_end(b, lo, hi);
        let next = next_line(b, lo, hi);
        lemma_line_end_found(b, lo, hi);
        lemma_lines_flatten(b, next, hi);
        lemma_one_line(b, lo, content);
        if end < hi {
            assert forall|k: int| content <= k < next implies is_break(
                b,
                lo,
                hi,
                WORD_DELIM,
                true,
                k,
            ) by {}
            lemma_spans_split(b, lo, content, next, hi, true);
        } else {
            assert(word_spans(b, hi, hi, true) =~= Seq::empty());
            assert(line_word_spans(b, hi, hi) =~= Seq::empty());
            assert(word_spans(b, lo, hi, true) =~= word_spans(b, lo, hi, true) + Seq::empty());
        }
    } else {
        assert(word_spans(b, lo, hi, true) =~= Seq::empty());
    }
}

} // verus!
