//! The word scanner: one cursor over a text that hands out words from
//! either end.

use crate::escape::{
    escape_run, escape_run_len, find_break, is_break, is_escaped, iso_parity,
    lemma_break_rebase, lemma_break_shrink, lemma_escape_run_rebase, lemma_next_break_found,
    lemma_next_break_is, lemma_next_content_found, lemma_next_content_is,
    lemma_prev_break_is, lemma_prev_content_is, next_break, next_content, prev_break,
    prev_content, CARRIAGE_RETURN, ESCAPE, NEWLINE, WORD_DELIM,
};
use crate::text::{lemma_ascii_is_char, lemma_str_is_utf8, substr};
use vstd::prelude::*;
use vstd::string::*;
use vstd::utf8::*;

verus! {

/// The words of the span `lo..hi` of `b`, each as the pair of its first
/// offset and the offset after its last byte, in the order of the text.
///
/// A word is a longest stretch without a split point; stretches of no
/// length are left out. With `lines` set a line ending splits as an
/// unescaped tab does, and no escape byte reaches over it.
pub open spec fn word_spans(b: Seq<u8>, lo: int, hi: int, lines: bool) -> Seq<(int, int)>
    decreases hi - lo,
    via word_spans_decreases
{
    let s = next_content(b, lo, hi, WORD_DELIM, lines, lo);
    let e = next_break(b, lo, hi, WORD_DELIM, lines, s);
    if lo <= s < hi {
        seq![(s, e)] + word_spans(b, e, hi, lines)
    } else {
        Seq::empty()
    }
}

#[via_fn]
proof fn word_spans_decreases(b: Seq<u8>, lo: int, hi: int, lines: bool) {
    let s = next_content(b, lo, hi, WORD_DELIM, lines, lo);
    if lo <= s < hi {
        lemma_next_content_found(b, lo, hi, WORD_DELIM, lines, lo);
        lemma_next_break_found(b, lo, hi, WORD_DELIM, lines, s + 1);
    }
}

/// The byte at `k` splits unless escape bytes say otherwise: it is a tab,
/// or, when `lines` is set, a newline or the carriage return directly
/// before one.
pub open spec fn can_split(b: Seq<u8>, hi: int, lines: bool, k: int) -> bool {
    b[k] == WORD_DELIM || lines && b[k] == NEWLINE || lines && b[k] == CARRIAGE_RETURN && k + 1
        < hi && b[k + 1] == NEWLINE
}

/// The bytes that each span of `spans` covers in `b`.
pub open spec fn span_bytes(b: Seq<u8>, spans: Seq<(int, int)>) -> Seq<Seq<u8>> {
    Seq::new(spans.len(), |i: int| b.subrange(spans[i].0, spans[i].1))
}

/// The last word of a span can be taken off its end: where `s..e` holds no
/// split point, a split point or the start stands before it and only split
/// points follow it, the words of `lo..hi` are those of `lo..s` and then
/// `s..e`.
pub proof fn lemma_spans_push_last(b: Seq<u8>, lo: int, hi: int, lines: bool, s: int, e: int)
    requires
        0 <= lo <= s < e <= hi <= b.len(),
        forall|k: int| e <= k < hi ==> is_break(b, lo, hi, WORD_DELIM, lines, k),
        forall|k: int| s <= k < e ==> !is_break(b, lo, hi, WORD_DELIM, lines, k),
        s == lo || is_break(b, lo, hi, WORD_DELIM, lines, s - 1),
    ensures
        word_spans(b, lo, hi, lines) == word_spans(b, lo, s, lines).push((s, e)),
    decreases hi - lo,
{
    let d = WORD_DELIM;
    let s0 = next_content(b, lo, hi, d, lines, lo);
    lemma_next_content_found(b, lo, hi, d, lines, lo);
    assert(!is_break(b, lo, hi, d, lines, s));
    assert(s0 <= s);
    assert forall|k: int| lo <= k < s implies is_break(b, lo, hi, d, lines, k) == is_break(
        b,
        lo,
        s,
        d,
        lines,
        k,
    ) by {
        lemma_break_shrink(b, lo, s, hi, d, lines, k);
    }
    if s0 == s {
        lemma_next_content_is(b, lo, s, d, lines, lo, s);
        lemma_next_break_is(b, lo, hi, d, lines, s, e);
        if e < hi {
            assert forall|k: int| e <= k < hi implies is_break(b, e, hi, d, lines, k) by {
                lemma_break_rebase(b, lo, e, hi, d, lines, k);
            }
        }
        lemma_next_content_is(b, e, hi, d, lines, e, hi);
        assert(word_spans(b, e, hi, lines) =~= Seq::empty());
        assert(word_spans(b, lo, s, lines) =~= Seq::empty());
        assert(word_spans(b, lo, hi, lines) =~= seq![(s, e)]);
    } else {
        let e0 = next_break(b, lo, hi, d, lines, s0);
        lemma_next_break_found(b, lo, hi, d, lines, s0);
        assert(is_break(b, lo, hi, d, lines, s - 1));
        assert(e0 <= s - 1);
        lemma_next_content_is(b, lo, s, d, lines, lo, s0);
        lemma_next_break_is(b, lo, s, d, lines, s0, e0);
        assert forall|k: int| e0 <= k < hi implies is_break(b, lo, hi, d, lines, k) == is_break(
            b,
            e0,
            hi,
            d,
            lines,
            k,
        ) by {
            lemma_break_rebase(b, lo, e0, hi, d, lines, k);
        }
        lemma_spans_push_last(b, e0, hi, lines, s, e);
        assert(word_spans(b, lo, hi, lines) =~= seq![(s0, e0)] + word_spans(b, e0, hi, lines));
        assert(word_spans(b, lo, s, lines) =~= seq![(s0, e0)] + word_spans(b, e0, s, lines));
        assert(word_spans(b, lo, hi, lines) =~= word_spans(b, lo, s, lines).push((s, e)));
    }
}

/// A span that holds split points only holds no word.
pub proof fn lemma_only_breaks_no_words(b: Seq<u8>, lo: int, hi: int, lines: bool)
    requires
        forall|k: int| lo <= k < hi ==> is_break(b, lo, hi, WORD_DELIM, lines, k),
    ensures
        word_spans(b, lo, hi, lines) == Seq::<(int, int)>::empty(),
{
    if lo <= hi {
        lemma_next_content_is(b, lo, hi, WORD_DELIM, lines, lo, hi);
    }
}

/// A cursor over the words of a text. Words leave it from the front and
/// from the back; what has left from one end is gone for the other.
#[derive(Debug, PartialEq, Eq, Clone, Copy)]
pub struct Words<'a> {
    text: &'a str,
    lo: usize,
    hi: usize,
    lines: bool,
}

impl<'a> Words<'a> {
    #[verifier::type_invariant]
    spec fn inv(self) -> bool {
        &&& self.lo <= self.hi <= self.text.spec_bytes().len()
        &&& is_char_boundary(self.text.spec_bytes(), self.lo as int)
        &&& is_char_boundary(self.text.spec_bytes(), self.hi as int)
    }

    /// The bytes of the text that the cursor was made over.
    pub closed spec fn source(self) -> Seq<u8> {
        self.text.spec_bytes()
    }

    /// The offset at which the part not yet handed out starts.
    pub closed spec fn start(self) -> int {
        self.lo as int
    }

    /// The offset at which the part not yet handed out ends.
    pub closed spec fn end(self) -> int {
        self.hi as int
    }

    /// Whether line endings split as well.
    pub closed spec fn by_lines(self) -> bool {
        self.lines
    }

    /// The spans of the words not yet handed out.
    pub open spec fn spans(self) -> Seq<(int, int)> {
        word_spans(self.source(), self.start(), self.end(), self.by_lines())
    }

    /// The words not yet handed out, as bytes.
    pub open spec fn view(self) -> Seq<Seq<u8>> {
        span_bytes(self.source(), self.spans())
    }

    /// A cursor over one line: only unescaped tabs split.
    pub fn from(inner: &'a str) -> (w: Self)
        ensures
            w.source() == inner.spec_bytes(),
            w.start() == 0,
            w.end() == inner.spec_bytes().len(),
            !w.by_lines(),
    {
        proof {
            lemma_str_is_utf8(inner);
            is_char_boundary_start_end_of_seq(inner.spec_bytes());
        }
        Words { text: inner, lo: 0, hi: inner.as_bytes().len(), lines: false }
    }

    /// A cursor over a text of several lines: unescaped tabs and line
    /// endings split.
    pub fn from_lines(text: &'a str) -> (w: Self)
        ensures
            w.source() == text.spec_bytes(),
            w.start() == 0,
            w.end() == text.spec_bytes().len(),
            w.by_lines(),
    {
        proof {
            lemma_str_is_utf8(text);
            is_char_boundary_start_end_of_seq(text.spec_bytes());
        }
        Words { text, lo: 0, hi: text.as_bytes().len(), lines: true }
    }

    /// The offset at which the part not yet handed out starts.
    pub fn start_offset(&self) -> (r: usize)
        ensures
            r == self.start(),
            r <= self.end() <= self.source().len(),
    {
        proof {
            use_type_invariant(self);
        }
        self.lo
    }

    /// The offset at which the part not yet handed out ends.
    pub fn end_offset(&self) -> (r: usize)
        ensures
            r == self.end(),
            self.start() <= r <= self.source().len(),
    {
        proof {
            use_type_invariant(self);
        }
        self.hi
    }

    /// How many bytes have not been handed out yet.
    pub fn len(self) -> (n: usize)
        ensures
            n == self.end() - self.start(),
    {
        proof {
            use_type_invariant(&self);
        }
        self.hi - self.lo
    }

    /// Whether every byte has been handed out.
    pub fn is_empty(self) -> (r: bool)
        ensures
            r == (self.start() == self.end()),
    {
        proof {
            use_type_invariant(&self);
        }
        self.hi == self.lo
    }

    /// The offset of the first byte that belongs to a word: the split
    /// points in front of it are passed over.
    pub fn find_sow(&self) -> (s: usize)
        ensures
            self.start() <= s <= self.end() <= self.source().len(),
            s == next_content(
                self.source(),
                self.start(),
                self.end(),
                WORD_DELIM,
                self.by_lines(),
                self.start(),
            ),
    {
        proof {
            use_type_invariant(self);
        }
        let b = self.text.as_bytes();
        let mut i: usize = self.lo;
        while i < self.hi
            invariant
                self.lo <= i <= self.hi <= b@.len(),
                b@ == self.text.spec_bytes(),
                forall|k: int|
                    self.lo <= k < i ==> is_break(
                        b@,
                        self.lo as int,
                        self.hi as int,
                        WORD_DELIM,
                        self.lines,
                        k,
                    ),
            decreases self.hi - i,
        {
            let c: u8 = b[i];
            let gap: bool = c == WORD_DELIM || self.lines && (c == NEWLINE || c == CARRIAGE_RETURN
                && i + 1 < self.hi && b[i + 1] == NEWLINE);
            if !gap {
                proof {
                    lemma_next_content_is(
                        b@,
                        self.lo as int,
                        self.hi as int,
                        WORD_DELIM,
                        self.lines,
                        self.lo as int,
                        i as int,
                    );
                }
                return i;
            }
            proof {
                if i > self.lo {
                    assert(is_break(
                        b@,
                        self.lo as int,
                        self.hi as int,
                        WORD_DELIM,
                        self.lines,
                        i - 1,
                    ));
                }
                assert(escape_run(b@, self.lo as int, i as int) == 0);
            }
            i = i + 1;
        }
        proof {
            lemma_next_content_is(
                b@,
                self.lo as int,
                self.hi as int,
                WORD_DELIM,
                self.lines,
                self.lo as int,
                i as int,
            );
        }
        i
    }

    /// The offset of the first split point, or of the end where there is
    /// none; nothing where no byte is left.
    pub fn find_eow(&self) -> (r: Option<usize>)
        ensures
            match r {
                Some(e) => self.start() < self.end() && self.start() <= e <= self.end() && e
                    == next_break(
                    self.source(),
                    self.start(),
                    self.end(),
                    WORD_DELIM,
                    self.by_lines(),
                    self.start(),
                ),
                None => self.start() == self.end(),
            },
    {
        proof {
            use_type_invariant(self);
        }
        if self.is_empty() {
            return None;
        }
        Some(find_break(self.text.as_bytes(), self.lo, self.hi, WORD_DELIM, self.lines))
    }

    /// The offset after the last byte that belongs to a word: the split
    /// points behind it are passed over, but for a tab that the escape
    /// bytes before it hold in the word. Nothing where only split points
    /// are left.
    pub fn rfind_eow(&self) -> (r: Option<usize>)
        ensures
            match r {
                Some(e) => {
                    &&& e == prev_content(
                        self.source(),
                        self.start(),
                        self.end(),
                        WORD_DELIM,
                        self.by_lines(),
                        self.end(),
                    )
                    &&& self.start() < e <= self.end()
                    &&& !is_break(
                        self.source(),
                        self.start(),
                        self.end(),
                        WORD_DELIM,
                        self.by_lines(),
                        e - 1,
                    )
                    &&& forall|k: int|
                        e <= k < self.end() ==> is_break(
                            self.source(),
                            self.start(),
                            self.end(),
                            WORD_DELIM,
                            self.by_lines(),
                            k,
                        )
                    &&& e == self.end() || self.source()[e as int] <= 0x7f
                },
                None => {
                    &&& self.start() == prev_content(
                        self.source(),
                        self.start(),
                        self.end(),
                        WORD_DELIM,
                        self.by_lines(),
                        self.end(),
                    )
                    &&& forall|k: int|
                        self.start() <= k < self.end() ==> is_break(
                            self.source(),
                            self.start(),
                            self.end(),
                            WORD_DELIM,
                            self.by_lines(),
                            k,
                        )
                },
            },
    {
        proof {
            use_type_invariant(self);
        }
        let b = self.text.as_bytes();
        let ghost lo = self.lo as int;
        let ghost hi = self.hi as int;
        let mut i: usize = self.hi;
        while i > self.lo
            invariant
                self.lo <= i <= self.hi <= b@.len(),
                b@ == self.text.spec_bytes(),
                lo == self.lo,
                hi == self.hi,
                forall|k: int| i <= k < hi ==> can_split(b@, hi, self.lines, k),
            decreases i,
        {
            let c: u8 = b[i - 1];
            let gap: bool = c == WORD_DELIM || self.lines && (c == NEWLINE || c == CARRIAGE_RETURN
                && i < self.hi && b[i] == NEWLINE);
            if !gap {
                let n: usize = escape_run_len(b, self.lo, i);
                let held: bool = i < self.hi && b[i] == WORD_DELIM && !iso_parity(i, i - n);
                let e: usize = if held {
                    i + 1
                } else {
                    i
                };
                proof {
                    assert(is_escaped(b@, lo, i as int) == !(i % 2 == (i - n) % 2));
                    assert forall|k: int| e <= k < hi implies is_break(
                        b@,
                        lo,
                        hi,
                        WORD_DELIM,
                        self.lines,
                        k,
                    ) by {
                        assert(can_split(b@, hi, self.lines, k));
                        if k > i {
                            assert(can_split(b@, hi, self.lines, k - 1));
                            assert(b@[k - 1] != ESCAPE);
                            assert(escape_run(b@, lo, k) == 0);
                        }
                    }
                    if e < hi {
                        assert(can_split(b@, hi, self.lines, e as int));
                    }
                    lemma_prev_content_is(b@, lo, hi, WORD_DELIM, self.lines, hi, e as int);
                }
                return Some(e);
            }
            i = i - 1;
        }
        proof {
            assert forall|k: int| lo <= k < hi implies is_break(
                b@,
                lo,
                hi,
                WORD_DELIM,
                self.lines,
                k,
            ) by {
                assert(can_split(b@, hi, self.lines, k));
                if k > lo {
                    assert(can_split(b@, hi, self.lines, k - 1));
                    assert(b@[k - 1] != ESCAPE);
                }
                assert(escape_run(b@, lo, k) == 0);
            }
            lemma_prev_content_is(b@, lo, hi, WORD_DELIM, self.lines, hi, lo);
        }
        None
    }

    /// The offset at which the last stretch without a split point starts:
    /// the offset after the last split point, or the start where there is
    /// none.
    pub fn rfind_sow(&self) -> (s: usize)
        ensures
            s == prev_break(
                self.source(),
                self.start(),
                self.end(),
                WORD_DELIM,
                self.by_lines(),
                self.end(),
            ),
            self.start() <= s <= self.end(),
            forall|k: int|
                s <= k < self.end() ==> !is_break(
                    self.source(),
                    self.start(),
                    self.end(),
                    WORD_DELIM,
                    self.by_lines(),
                    k,
                ),
            s == self.start() || is_break(
                self.source(),
                self.start(),
                self.end(),
                WORD_DELIM,
                self.by_lines(),
                s - 1,
            ),
    {
        proof {
            use_type_invariant(self);
        }
        let b = self.text.as_bytes();
        let ghost lo = self.lo as int;
        let ghost hi = self.hi as int;
        let mut k: usize = self.hi;
        while k > self.lo
            invariant
                self.lo <= k <= self.hi <= b@.len(),
                b@ == self.text.spec_bytes(),
                lo == self.lo,
                hi == self.hi,
                forall|m: int| k <= m < hi ==> !is_break(b@, lo, hi, WORD_DELIM, self.lines, m),
            decreases k,
        {
            let c: u8 = b[k - 1];
            if self.lines && c == NEWLINE {
                proof {
                    lemma_prev_break_is(b@, lo, hi, WORD_DELIM, self.lines, hi, k as int);
                }
                return k;
            }
            if c == WORD_DELIM {
                let n: usize = escape_run_len(b, self.lo, k - 1);
                if iso_parity(k - 1, k - 1 - n) {
                    proof {
                        lemma_prev_break_is(b@, lo, hi, WORD_DELIM, self.lines, hi, k as int);
                    }
                    return k;
                }
                proof {
                    assert(is_escaped(b@, lo, k - 1));
                    assert forall|m: int| k - 1 - n <= m < hi implies !is_break(
                        b@,
                        lo,
                        hi,
                        WORD_DELIM,
                        self.lines,
                        m,
                    ) by {
                        if m < k - 1 {
                            assert(b@[m] == ESCAPE);
                        }
                    }
                }
                k = k - 1 - n;
            } else {
                proof {
                    if k < hi {
                        assert(!is_break(b@, lo, hi, WORD_DELIM, self.lines, k as int));
                    }
                    assert(!is_break(b@, lo, hi, WORD_DELIM, self.lines, k - 1));
                }
                k = k - 1;
            }
        }
        proof {
            lemma_prev_break_is(b@, lo, hi, WORD_DELIM, self.lines, hi, k as int);
        }
        k
    }

    /// Takes the first word off the front and returns its span.
    pub fn next_span(&mut self) -> (r: Option<(usize, usize)>)
        ensures
            final(self).source() == old(self).source(),
            final(self).by_lines() == old(self).by_lines(),
            final(self).end() == old(self).end(),
            0 <= old(self).start() <= final(self).start() <= final(self).end() <= usize::MAX,
            match r {
                Some((s, e)) => {
                    &&& old(self).spans().len() > 0
                    &&& old(self).spans()[0] == (s as int, e as int)
                    &&& final(self).spans() == old(self).spans().drop_first()
                    &&& final(self).start() == e
                    &&& 0 <= old(self).start() <= s < e <= old(self).end() <= old(self).source().len()
                },
                None => old(self).spans().len() == 0 && final(self).spans().len() == 0
                    && final(self).start() == final(self).end(),
            },
    {
        proof {
            use_type_invariant(&*self);
            lemma_str_is_utf8(self.text);
        }
        let ghost b = self.text.spec_bytes();
        let ghost lo = self.lo as int;
        let ghost hi = self.hi as int;
        let ghost lines = self.lines;
        let s = self.find_sow();
        proof {
            lemma_next_content_found(b, lo, hi, WORD_DELIM, lines, lo);
            if s > lo {
                assert(is_break(b, lo, hi, WORD_DELIM, lines, s - 1));
                lemma_ascii_is_char(b, s - 1);
            }
        }
        self.lo = s;
        match self.find_eow() {
            None => {
                assert(word_spans(b, hi, hi, lines) =~= Seq::empty());
                None
            },
            Some(e) => {
                proof {
                    assert forall|k: int| s <= k < hi implies is_break(
                        b,
                        lo,
                        hi,
                        WORD_DELIM,
                        lines,
                        k,
                    ) == is_break(b, s as int, hi, WORD_DELIM, lines, k) by {
                        lemma_escape_run_rebase(b, lo, s as int, k);
                    }
                    lemma_next_break_found(b, s as int, hi, WORD_DELIM, lines, s as int);
                    lemma_next_break_is(b, lo, hi, WORD_DELIM, lines, s as int, e as int);
                    if e < hi {
                        lemma_ascii_is_char(b, e as int);
                    }
                }
                self.lo = e;
                Some((s, e))
            },
        }
    }

    /// Takes the last word off the back and returns its span.
    pub fn next_back_span(&mut self) -> (r: Option<(usize, usize)>)
        ensures
            final(self).source() == old(self).source(),
            final(self).by_lines() == old(self).by_lines(),
            final(self).start() == old(self).start(),
            0 <= final(self).start() <= final(self).end() <= old(self).end() <= usize::MAX,
            match r {
                Some((s, e)) => {
                    &&& old(self).spans().len() > 0
                    &&& old(self).spans().last() == (s as int, e as int)
                    &&& final(self).spans() == old(self).spans().drop_last()
                    &&& final(self).end() == s
                    &&& 0 <= old(self).start() <= s < e <= old(self).end() <= old(self).source().len()
                },
                None => old(self).spans().len() == 0 && final(self).spans().len() == 0
                    && final(self).end() == old(self).end(),
            },
    {
        proof {
            use_type_invariant(&*self);
            lemma_str_is_utf8(self.text);
        }
        let ghost b = self.text.spec_bytes();
        let ghost lo = self.lo as int;
        let ghost hi = self.hi as int;
        let ghost lines = self.lines;
        match self.rfind_eow() {
            None => {
                proof {
                    assert(self.source() == b && self.start() == lo && self.end() == hi);
                    assert(self.by_lines() == lines);
                    assert forall|k: int| lo <= k < hi implies is_break(
                        b,
                        lo,
                        hi,
                        WORD_DELIM,
                        lines,
                        k,
                    ) by {
                        assert(is_break(
                            self.source(),
                            self.start(),
                            self.end(),
                            WORD_DELIM,
                            self.by_lines(),
                            k,
                        ));
                    }
                    lemma_only_breaks_no_words(b, lo, hi, lines);
                }
                None
            },
            Some(e) => {
                proof {
                    if e < hi {
                        lemma_ascii_is_char(b, e as int);
                    }
                }
                self.hi = e;
                let s = self.rfind_sow();
                proof {
                    assert forall|k: int| lo <= k < e implies is_break(
                        b,
                        lo,
                        hi,
                        WORD_DELIM,
                        lines,
                        k,
                    ) == is_break(b, lo, e as int, WORD_DELIM, lines, k) by {
                        lemma_break_shrink(b, lo, e as int, hi, WORD_DELIM, lines, k);
                    }
                    if s > lo {
                        lemma_ascii_is_char(b, s - 1);
                    }
                    assert forall|k: int| s <= k < e implies !is_break(
                        b,
                        lo,
                        hi,
                        WORD_DELIM,
                        lines,
                        k,
                    ) by {
                        assert(!is_break(
                            self.source(),
                            self.start(),
                            self.end(),
                            WORD_DELIM,
                            self.by_lines(),
                            k,
                        ));
                        lemma_break_shrink(b, lo, e as int, hi, WORD_DELIM, lines, k);
                    }
                    lemma_spans_push_last(b, lo, hi, lines, s as int, e as int);
                    assert(word_spans(b, lo, hi, lines).drop_last() =~= word_spans(
                        b,
                        lo,
                        s as int,
                        lines,
                    ));
                }
                self.hi = s;
                Some((s, e))
            },
        }
    }

    /// Takes the first word off the front.
    pub fn next(&mut self) -> (r: Option<&'a str>)
        ensures
            final(self).source() == old(self).source(),
            final(self).by_lines() == old(self).by_lines(),
            final(self).end() == old(self).end(),
            0 <= old(self).start() <= final(self).start() <= final(self).end() <= usize::MAX,
            match r {
                Some(w) => {
                    &&& old(self)@.len() > 0
                    &&& w.spec_bytes() == old(self)@[0]
                    &&& final(self)@ == old(self)@.drop_first()
                    &&& final(self).spans() == old(self).spans().drop_first()
                    &&& final(self).start() == old(self).spans()[0].1
                    &&& 0 <= old(self).start() <= old(self).spans()[0].0 < old(self).spans()[0].1
                        <= old(self).end() <= old(self).source().len()
                },
                None => old(self)@.len() == 0 && final(self)@.len() == 0,
            },
    {
        proof {
            use_type_invariant(&*self);
        }
        let ghost before = *self;
        match self.next_span() {
            None => None,
            Some((s, e)) => {
                proof {
                    use_type_invariant(&*self);
                    lemma_str_is_utf8(self.text);
                    Self::lemma_span_cut(before);
                    assert(self@ =~= before@.drop_first());
                }
                Some(substr(self.text, s, e))
            },
        }
    }

    /// Takes the last word off the back.
    pub fn next_back(&mut self) -> (r: Option<&'a str>)
        ensures
            final(self).source() == old(self).source(),
            final(self).by_lines() == old(self).by_lines(),
            final(self).start() == old(self).start(),
            0 <= final(self).start() <= final(self).end() <= old(self).end() <= usize::MAX,
            match r {
                Some(w) => {
                    &&& old(self)@.len() > 0
                    &&& w.spec_bytes() == old(self)@.last()
                    &&& final(self)@ == old(self)@.drop_last()
                    &&& final(self).spans() == old(self).spans().drop_last()
                    &&& final(self).end() == old(self).spans().last().0
                    &&& 0 <= old(self).start() <= old(self).spans().last().0 < old(self).spans().last().1
                        <= old(self).end() <= old(self).source().len()
                },
                None => old(self)@.len() == 0 && final(self)@.len() == 0,
            },
    {
        proof {
            use_type_invariant(&*self);
        }
        let ghost before = *self;
        match self.next_back_span() {
            None => None,
            Some((s, e)) => {
                proof {
                    use_type_invariant(&*self);
                    lemma_str_is_utf8(self.text);
                    Self::lemma_span_cut(before);
                    assert(self@ =~= before@.drop_last());
                }
                Some(substr(self.text, s, e))
            },
        }
    }

    /// Each span of a cursor starts and ends between two characters of
    /// the text.
    proof fn lemma_span_cut(w: Self)
        requires
            w.inv(),
        ensures
            forall|i: int|
                0 <= i < w.spans().len() ==> {
                    &&& w.lo <= (#[trigger] w.spans()[i]).0 < w.spans()[i].1 <= w.hi
                    &&& is_char_boundary(w.text.spec_bytes(), w.spans()[i].0)
                    &&& is_char_boundary(w.text.spec_bytes(), w.spans()[i].1)
                },
    {
        lemma_str_is_utf8(w.text);
        lemma_spans_cut(w.text.spec_bytes(), w.lo as int, w.hi as int, w.lines);
    }
}

/// Each word of a span lies in it, has a byte at least, and starts and
/// ends between two characters where the span does.
pub proof fn lemma_spans_cut(b: Seq<u8>, lo: int, hi: int, lines: bool)
    requires
        valid_utf8(b),
        0 <= lo <= hi <= b.len(),
        is_char_boundary(b, lo),
        is_char_boundary(b, hi),
    ensures
        forall|i: int|
            0 <= i < word_spans(b, lo, hi, lines).len() ==> {
                &&& lo <= (#[trigger] word_spans(b, lo, hi, lines)[i]).0 < word_spans(
                    b,
                    lo,
                    hi,
                    lines,
                )[i].1 <= hi
                &&& is_char_boundary(b, word_spans(b, lo, hi, lines)[i].0)
                &&& is_char_boundary(b, word_spans(b, lo, hi, lines)[i].1)
            },
    decreases hi - lo,
{
    let s = next_content(b, lo, hi, WORD_DELIM, lines, lo);
    let e = next_break(b, lo, hi, WORD_DELIM, lines, s);
    if lo <= s < hi {
        lemma_next_content_found(b, lo, hi, WORD_DELIM, lines, lo);
        lemma_next_break_found(b, lo, hi, WORD_DELIM, lines, s);
        lemma_next_break_found(b, lo, hi, WORD_DELIM, lines, s + 1);
        if s > lo {
            assert(is_break(b, lo, hi, WORD_DELIM, lines, s - 1));
            lemma_ascii_is_char(b, s - 1);
        }
        if e < hi {
            assert(is_break(b, lo, hi, WORD_DELIM, lines, e));
            lemma_ascii_is_char(b, e);
        }
        lemma_spans_cut(b, e, hi, lines);
        let rest = word_spans(b, e, hi, lines);
        assert forall|i: int| 0 <= i < word_spans(b, lo, hi, lines).len() implies {
            &&& lo <= (#[trigger] word_spans(b, lo, hi, lines)[i]).0 < word_spans(
                b,
                lo,
                hi,
                lines,
            )[i].1 <= hi
            &&& is_char_boundary(b, word_spans(b, lo, hi, lines)[i].0)
            &&& is_char_boundary(b, word_spans(b, lo, hi, lines)[i].1)
        } by {
            if i > 0 {
                assert(word_spans(b, lo, hi, lines)[i] == rest[i - 1]);
            }
        }
    }
}

} // verus!
