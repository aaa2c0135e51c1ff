//! The escape rule shared by every scanner of the crate.
//!
//! A delimiter byte separates exactly when the backslashes that stand
//! directly before it are even in number.

use vstd::prelude::*;

verus! {

/// The byte that separates the words of a line.
pub const WORD_DELIM: u8 = 0x09;

/// The byte that takes the separating meaning from the delimiter after it.
pub const ESCAPE: u8 = 0x5c;

/// The byte that separates the tag fields of a word.
pub const TAG_DELIM: u8 = 0x2f;

/// The byte that ends a line.
pub const NEWLINE: u8 = 0x0a;

/// The byte that belongs to a line ending when it stands directly before a
/// newline.
pub const CARRIAGE_RETURN: u8 = 0x0d;

/// How many escape bytes stand directly before index `i`, looking no
/// further back than `lo`.
pub open spec fn escape_run(b: Seq<u8>, lo: int, i: int) -> nat
    decreases i - lo,
{
    if lo < i && 0 < i <= b.len() && b[i - 1] == ESCAPE {
        1 + escape_run(b, lo, i - 1)
    } else {
        0
    }
}

/// The byte at `i` is robbed of its meaning: an odd number of escape bytes
/// stands directly before it.
pub open spec fn is_escaped(b: Seq<u8>, lo: int, i: int) -> bool {
    escape_run(b, lo, i) % 2 == 1
}

/// Index `i` of the span `lo..hi` is a split point: an unescaped `delim`,
/// or, when `lines` is set, a newline or the carriage return directly
/// before one.
pub open spec fn is_break(b: Seq<u8>, lo: int, hi: int, delim: u8, lines: bool, i: int) -> bool {
    &&& lo <= i < hi
    &&& 0 <= i < b.len()
    &&& (b[i] == delim && !is_escaped(b, lo, i) || lines && b[i] == NEWLINE || lines && b[i]
        == CARRIAGE_RETURN && i + 1 < hi && i + 1 < b.len() && b[i + 1] == NEWLINE)
}

/// The first split point of `lo..hi` at or after `i`, or `hi` where there
/// is none.
pub open spec fn next_break(b: Seq<u8>, lo: int, hi: int, delim: u8, lines: bool, i: int) -> int
    decreases hi - i,
{
    if i < hi && !is_break(b, lo, hi, delim, lines, i) {
        next_break(b, lo, hi, delim, lines, i + 1)
    } else {
        i
    }
}

/// The first index of `lo..hi` at or after `i` that is no split point, or
/// `hi` where there is none.
pub open spec fn next_content(b: Seq<u8>, lo: int, hi: int, delim: u8, lines: bool, i: int) -> int
    decreases hi - i,
{
    if i < hi && is_break(b, lo, hi, delim, lines, i) {
        next_content(b, lo, hi, delim, lines, i + 1)
    } else {
        i
    }
}

/// The last offset of `lo..hi` at or before `i` that has no split point
/// directly before it, or `lo` where there is none.
pub open spec fn prev_content(b: Seq<u8>, lo: int, hi: int, delim: u8, lines: bool, i: int) -> int
    decreases i - lo,
{
    if lo < i && is_break(b, lo, hi, delim, lines, i - 1) {
        prev_content(b, lo, hi, delim, lines, i - 1)
    } else {
        i
    }
}

/// The last offset of `lo..hi` at or before `i` that has a split point
/// directly before it, or `lo` where there is none.
pub open spec fn prev_break(b: Seq<u8>, lo: int, hi: int, delim: u8, lines: bool, i: int) -> int
    decreases i - lo,
{
    if lo < i && !is_break(b, lo, hi, delim, lines, i - 1) {
        prev_break(b, lo, hi, delim, lines, i - 1)
    } else {
        i
    }
}

/// What `prev_content` returns: an offset from `lo` to `i` with only split
/// points from it to `i` and none directly before it.
pub proof fn lemma_prev_content_found(
    b: Seq<u8>,
    lo: int,
    hi: int,
    delim: u8,
    lines: bool,
    i: int,
)
    requires
        lo <= i,
    ensures
        lo <= prev_content(b, lo, hi, delim, lines, i) <= i,
        forall|k: int|
            prev_content(b, lo, hi, delim, lines, i) <= k < i ==> is_break(
                b,
                lo,
                hi,
                delim,
                lines,
                k,
            ),
        prev_content(b, lo, hi, delim, lines, i) == lo || !is_break(
            b,
            lo,
            hi,
            delim,
            lines,
            prev_content(b, lo, hi, delim, lines, i) - 1,
        ),
    decreases i - lo,
{
    if lo < i && is_break(b, lo, hi, delim, lines, i - 1) {
        lemma_prev_content_found(b, lo, hi, delim, lines, i - 1);
    }
}

/// What `prev_break` returns: an offset from `lo` to `i` with no split
/// point from it to `i` and one directly before it, unless it is `lo`.
pub proof fn lemma_prev_break_found(
    b: Seq<u8>,
    lo: int,
    hi: int,
    delim: u8,
    lines: bool,
    i: int,
)
    requires
        lo <= i,
    ensures
        lo <= prev_break(b, lo, hi, delim, lines, i) <= i,
        forall|k: int|
            prev_break(b, lo, hi, delim, lines, i) <= k < i ==> !is_break(
                b,
                lo,
                hi,
                delim,
                lines,
                k,
            ),
        prev_break(b, lo, hi, delim, lines, i) == lo || is_break(
            b,
            lo,
            hi,
            delim,
            lines,
            prev_break(b, lo, hi, delim, lines, i) - 1,
        ),
    decreases i - lo,
{
    if lo < i && !is_break(b, lo, hi, delim, lines, i - 1) {
        lemma_prev_break_found(b, lo, hi, delim, lines, i - 1);
    }
}

/// `prev_content` names the start of a stretch of split points.
pub proof fn lemma_prev_content_is(
    b: Seq<u8>,
    lo: int,
    hi: int,
    delim: u8,
    lines: bool,
    i: int,
    e: int,
)
    requires
        lo <= e <= i,
        forall|k: int| e <= k < i ==> is_break(b, lo, hi, delim, lines, k),
        e == lo || !is_break(b, lo, hi, delim, lines, e - 1),
    ensures
        prev_content(b, lo, hi, delim, lines, i) == e,
    decreases i - e,
{
    if e < i {
        assert(is_break(b, lo, hi, delim, lines, i - 1));
        lemma_prev_content_is(b, lo, hi, delim, lines, i - 1, e);
    }
}

/// `prev_break` names the start of a stretch without split points.
pub proof fn lemma_prev_break_is(
    b: Seq<u8>,
    lo: int,
    hi: int,
    delim: u8,
    lines: bool,
    i: int,
    s: int,
)
    requires
        lo <= s <= i,
        forall|k: int| s <= k < i ==> !is_break(b, lo, hi, delim, lines, k),
        s == lo || is_break(b, lo, hi, delim, lines, s - 1),
    ensures
        prev_break(b, lo, hi, delim, lines, i) == s,
    decreases i - s,
{
    if s < i {
        assert(!is_break(b, lo, hi, delim, lines, i - 1));
        lemma_prev_break_is(b, lo, hi, delim, lines, i - 1, s);
    }
}

/// Counting escape bytes from a later start gives the same run, as long as
/// no escape byte stands directly before that start.
pub proof fn lemma_escape_run_rebase(b: Seq<u8>, lo: int, s: int, i: int)
    requires
        0 <= lo <= s <= i <= b.len(),
        s == lo || b[s - 1] != ESCAPE,
    ensures
        escape_run(b, lo, i) == escape_run(b, s, i),
    decreases i - s,
{
    if s < i && b[i - 1] == ESCAPE {
        lemma_escape_run_rebase(b, lo, s, i - 1);
    }
}

/// A span that starts at one of its split points has the split points of
/// the span around it.
pub proof fn lemma_break_rebase(
    b: Seq<u8>,
    lo: int,
    e: int,
    hi: int,
    delim: u8,
    lines: bool,
    i: int,
)
    requires
        0 <= lo <= e <= i < hi <= b.len(),
        delim != ESCAPE,
        is_break(b, lo, hi, delim, lines, e),
    ensures
        is_break(b, lo, hi, delim, lines, i) == is_break(b, e, hi, delim, lines, i),
{
    if i > e {
        lemma_escape_run_rebase(b, lo, e + 1, i);
        lemma_escape_run_rebase(b, e, e + 1, i);
    }
}

/// Cutting a span short leaves the split points before the cut as they
/// were, unless the cut parts a carriage return from its newline.
pub proof fn lemma_break_shrink(
    b: Seq<u8>,
    lo: int,
    s: int,
    hi: int,
    delim: u8,
    lines: bool,
    i: int,
)
    requires
        0 <= lo <= i < s <= hi <= b.len(),
        !(lines && s < hi && b[s - 1] == CARRIAGE_RETURN && b[s] == NEWLINE),
    ensures
        is_break(b, lo, hi, delim, lines, i) == is_break(b, lo, s, delim, lines, i),
{
}

/// `next_break` names the end of a stretch without split points.
pub proof fn lemma_next_break_is(
    b: Seq<u8>,
    lo: int,
    hi: int,
    delim: u8,
    lines: bool,
    i: int,
    e: int,
)
    requires
        i <= e <= hi,
        forall|k: int| i <= k < e ==> !is_break(b, lo, hi, delim, lines, k),
        e == hi || is_break(b, lo, hi, delim, lines, e),
    ensures
        next_break(b, lo, hi, delim, lines, i) == e,
    decreases e - i,
{
    if i < e {
        lemma_next_break_is(b, lo, hi, delim, lines, i + 1, e);
    }
}

/// `next_content` names the end of a stretch of split points.
pub proof fn lemma_next_content_is(
    b: Seq<u8>,
    lo: int,
    hi: int,
    delim: u8,
    lines: bool,
    i: int,
    s: int,
)
    requires
        i <= s <= hi,
        forall|k: int| i <= k < s ==> is_break(b, lo, hi, delim, lines, k),
        s == hi || !is_break(b, lo, hi, delim, lines, s),
    ensures
        next_content(b, lo, hi, delim, lines, i) == s,
    decreases s - i,
{
    if i < s {
        lemma_next_content_is(b, lo, hi, delim, lines, i + 1, s);
    }
}

/// What `next_break` returns: an index from `i` to `hi` with no split point
/// before it and a split point at it, unless it is `hi`.
pub proof fn lemma_next_break_found(
    b: Seq<u8>,
    lo: int,
    hi: int,
    delim: u8,
    lines: bool,
    i: int,
)
    requires
        i <= hi,
    ensures
        i <= next_break(b, lo, hi, delim, lines, i) <= hi,
        forall|k: int|
            i <= k < next_break(b, lo, hi, delim, lines, i) ==> !is_break(
                b,
                lo,
                hi,
                delim,
                lines,
                k,
            ),
        next_break(b, lo, hi, delim, lines, i) == hi || is_break(
            b,
            lo,
            hi,
            delim,
            lines,
            next_break(b, lo, hi, delim, lines, i),
        ),
    decreases hi - i,
{
    if i < hi && !is_break(b, lo, hi, delim, lines, i) {
        lemma_next_break_found(b, lo, hi, delim, lines, i + 1);
    }
}

/// What `next_content` returns: an index from `i` to `hi` with only split
/// points before it and none at it.
pub proof fn lemma_next_content_found(
    b: Seq<u8>,
    lo: int,
    hi: int,
    delim: u8,
    lines: bool,
    i: int,
)
    requires
        i <= hi,
    ensures
        i <= next_content(b, lo, hi, delim, lines, i) <= hi,
        forall|k: int|
            i <= k < next_content(b, lo, hi, delim, lines, i) ==> is_break(
                b,
                lo,
                hi,
                delim,
                lines,
                k,
            ),
        next_content(b, lo, hi, delim, lines, i) == hi || !is_break(
            b,
            lo,
            hi,
            delim,
            lines,
            next_content(b, lo, hi, delim, lines, i),
        ),
    decreases hi - i,
{
    if i < hi && is_break(b, lo, hi, delim, lines, i) {
        lemma_next_content_found(b, lo, hi, delim, lines, i + 1);
    }
}

/// Scans `lo..hi` forward for its first split point, counting escape bytes
/// from `lo`.
pub fn find_break(b: &[u8], lo: usize, hi: usize, delim: u8, lines: bool) -> (e: usize)
    requires
        lo <= hi <= b@.len(),
    ensures
        lo <= e <= hi,
        e == next_break(b@, lo as int, hi as int, delim, lines, lo as int),
{
    let mut i: usize = lo;
    let mut escaped: bool = false;
    while i < hi
        invariant
            lo <= i <= hi <= b@.len(),
            escaped == is_escaped(b@, lo as int, i as int),
            next_break(b@, lo as int, hi as int, delim, lines, lo as int) == next_break(
                b@,
                lo as int,
                hi as int,
                delim,
                lines,
                i as int,
            ),
        decreases hi - i,
    {
        let c: u8 = b[i];
        if c == delim && !escaped {
            return i;
        }
        if lines && (c == NEWLINE || c == CARRIAGE_RETURN && i + 1 < hi && b[i + 1] == NEWLINE) {
            return i;
        }
        escaped = c == ESCAPE && !escaped;
        i = i + 1;
    }
    i
}

/// Counts the escape bytes that stand directly before `i`, looking no
/// further back than `lo`.
pub fn escape_run_len(b: &[u8], lo: usize, i: usize) -> (n: usize)
    requires
        lo <= i <= b@.len(),
    ensures
        n == escape_run(b@, lo as int, i as int),
        n <= i - lo,
        forall|k: int| i - n <= k < i ==> b@[k] == ESCAPE,
        i - n == lo || b@[i - n - 1] != ESCAPE,
{
    let mut j: usize = i;
    while j > lo && b[j - 1] == ESCAPE
        invariant
            lo <= j <= i <= b@.len(),
            escape_run(b@, lo as int, i as int) == (i - j) + escape_run(b@, lo as int, j as int),
            forall|k: int| j <= k < i ==> b@[k] == ESCAPE,
        decreases j - lo,
    {
        j = j - 1;
    }
    i - j
}

/// Whether two indices are both even or both odd.
pub fn iso_parity(i: usize, j: usize) -> (r: bool)
    ensures
        r == (i % 2 == j % 2),
{
    assert((i & 1) == i % 2) by (bit_vector);
    assert((j & 1) == j % 2) by (bit_vector);
    (i & 1) == (j & 1)
}

} // verus!
