//! Scanning from the back, stated by itself, and its agreement with
//! scanning from the front.

use crate::escape::{
    escape_run, is_break, lemma_prev_break_found, lemma_prev_content_found, prev_break,
    prev_content, NEWLINE, WORD_DELIM,
};
use crate::words::{lemma_only_breaks_no_words, lemma_spans_push_last, word_spans};
use vstd::prelude::*;

verus! {

/// The words of the span `lo..hi` of `b` as a scan from the back meets
/// them: the last word first.
pub open spec fn word_spans_back(b: Seq<u8>, lo: int, hi: int, lines: bool) -> Seq<(int, int)>
    decreases hi - lo,
    via word_spans_back_decreases
{
    let e = prev_content(b, lo, hi, WORD_DELIM, lines, hi);
    let s = prev_break(b, lo, hi, WORD_DELIM, lines, e);
    if lo < e <= hi {
        seq![(s, e)] + word_spans_back(b, lo, s, lines)
    } else {
        Seq::empty()
    }
}

#[via_fn]
proof fn word_spans_back_decreases(b: Seq<u8>, lo: int, hi: int, lines: bool) {
    let e = prev_content(b, lo, hi, WORD_DELIM, lines, hi);
    if lo < e <= hi {
        lemma_prev_content_found(b, lo, hi, WORD_DELIM, lines, hi);
        lemma_prev_break_found(b, lo, hi, WORD_DELIM, lines, e - 1);
    }
}

/// Scanning a span from the back meets the words that scanning it from the
/// front meets, in the opposite order.
pub proof fn lemma_backward_is_forward_reversed(b: Seq<u8>, lo: int, hi: int, lines: bool)
    requires
        0 <= lo <= hi <= b.len(),
    ensures
        word_spans_back(b, lo, hi, lines) == word_spans(b, lo, hi, lines).reverse(),
    decreases hi - lo,
{
    let e = prev_content(b, lo, hi, WORD_DELIM, lines, hi);
    let s = prev_break(b, lo, hi, WORD_DELIM, lines, e);
    lemma_prev_content_found(b, lo, hi, WORD_DELIM, lines, hi);
    lemma_prev_break_found(b, lo, hi, WORD_DELIM, lines, e);
    if lo < e {
        assert(!is_break(b, lo, hi, WORD_DELIM, lines, e - 1));
        assert(s < e);
        lemma_spans_push_last(b, lo, hi, lines, s, e);
        lemma_backward_is_forward_reversed(b, lo, s, lines);
        let front = word_spans(b, lo, s, lines);
        assert(front.push((s, e)).reverse() =~= seq![(s, e)] + front.reverse());
    } else {
        lemma_only_breaks_no_words(b, lo, hi, lines);
        assert(word_spans(b, lo, hi, lines).reverse() =~= Seq::<(int, int)>::empty());
    }
}

/// A span of tabs only, and so a span of no length, holds no word, from
/// whichever end it is scanned. Where line endings split, the span may
/// hold newlines as well.
pub proof fn lemma_only_delimiters_no_words(b: Seq<u8>, lo: int, hi: int, lines: bool)
    requires
        0 <= lo <= hi <= b.len(),
        forall|k: int| lo <= k < hi ==> b[k] == WORD_DELIM || lines && b[k] == NEWLINE,
    ensures
        word_spans(b, lo, hi, lines) == Seq::<(int, int)>::empty(),
        word_spans_back(b, lo, hi, lines) == Seq::<(int, int)>::empty(),
{
    assert forall|k: int| lo <= k < hi implies is_break(b, lo, hi, WORD_DELIM, lines, k) by {
        if k > lo {
            assert(b[k - 1] == WORD_DELIM || b[k - 1] == NEWLINE);
        }
        assert(escape_run(b, lo, k) == 0);
    }
    lemma_only_breaks_no_words(b, lo, hi, lines);
    lemma_backward_is_forward_reversed(b, lo, hi, lines);
    assert(word_spans(b, lo, hi, lines).reverse() =~= Seq::<(int, int)>::empty());
}

} // verus!
