//! A single word with its fields still in it.

use crate::escape::{find_break, is_break, lemma_next_break_found, next_break, ESCAPE, TAG_DELIM, WORD_DELIM};
use crate::pos::PoS;
use crate::surface::Surface;
use crate::text::{lemma_ascii_is_char, lemma_str_is_utf8, substr};
use vstd::prelude::*;
use vstd::string::*;
use vstd::utf8::*;

verus! {

/// Whether the word `b` stands for a blank: it starts with a space or with
/// an escaped tab.
pub open spec fn is_blank_word(b: Seq<u8>) -> bool {
    b.len() >= 1 && b[0] == 0x20 || b.len() >= 2 && b[0] == ESCAPE && b[1] == WORD_DELIM
}

/// The offset of the first unescaped slash of `b` at or after `start`,
/// counting escape bytes from `start`; the length of `b` where there is
/// none.
pub open spec fn slash_from(b: Seq<u8>, start: int) -> int {
    if 0 <= start <= b.len() {
        next_break(b, start, b.len() as int, TAG_DELIM, false, start)
    } else {
        b.len() as int
    }
}

/// The offset at which the surface form of `b` ends.
pub open spec fn surface_end(b: Seq<u8>) -> int {
    slash_from(b, 0)
}

/// The offset at which the part of speech of `b` ends: behind the
/// surface form where no slash follows it.
pub open spec fn pos_end(b: Seq<u8>) -> int {
    if surface_end(b) == b.len() {
        surface_end(b)
    } else {
        slash_from(b, surface_end(b) + 1)
    }
}

/// The offsets of a word are offsets between its characters.
pub proof fn lemma_word_offsets(b: Seq<u8>)
    requires
        valid_utf8(b),
    ensures
        0 <= surface_end(b) <= pos_end(b) <= b.len(),
        is_char_boundary(b, surface_end(b)),
        is_char_boundary(b, pos_end(b)),
        surface_end(b) < b.len() ==> is_char_boundary(b, surface_end(b) + 1) && surface_end(b)
            + 1 <= pos_end(b),
{
    let n = b.len() as int;
    let first = surface_end(b);
    lemma_next_break_found(b, 0, n, TAG_DELIM, false, 0);
    is_char_boundary_start_end_of_seq(b);
    if first < n {
        assert(is_break(b, 0, n, TAG_DELIM, false, first));
        lemma_ascii_is_char(b, first);
        let eow = pos_end(b);
        lemma_next_break_found(b, first + 1, n, TAG_DELIM, false, first + 1);
        if eow < n {
            assert(is_break(b, first + 1, n, TAG_DELIM, false, eow));
            lemma_ascii_is_char(b, eow);
        }
    }
}

/// One word of the analyzer's output.
#[derive(Debug, PartialEq, Eq)]
pub struct Word<'a> {
    /// The text of the word, tags included.
    pub inner: &'a str,
}

impl<'a> Word<'a> {
    /// The bytes of the word.
    pub open spec fn view(&self) -> Seq<u8> {
        self.inner.spec_bytes()
    }

    /// The word that `inner` holds.
    pub fn from(inner: &'a str) -> (w: Self)
        ensures
            w.inner == inner,
    {
        Word { inner }
    }

    /// Whether the word stands for a blank.
    pub fn is_ascii_whitespace(&self) -> (r: bool)
        ensures
            r == is_blank_word(self@),
    {
        let inner = self.inner.as_bytes();
        inner.len() >= 1 && inner[0] == 0x20 || inner.len() >= 2 && inner[0] == ESCAPE && inner[1]
            == WORD_DELIM
    }

    /// Writes the surface form and the part of speech of the word behind
    /// `s`, with the slash between them. A word without a byte, and one
    /// that stands for a blank, writes nothing.
    pub fn pushed_to(&self, s: &mut String)
        ensures
            final(s)@ == old(s)@ + if self@.len() == 0 || is_blank_word(self@) {
                Seq::<char>::empty()
            } else {
                decode_utf8(self@.subrange(0, pos_end(self@)))
            },
    {
        if self.inner.as_bytes().len() == 0 {
            assert(s@ =~= s@ + Seq::<char>::empty());
            return ;
        }
        if !self.is_ascii_whitespace() {
            let (_, eow) = self.find_end_of_surface_and_pos();
            proof {
                lemma_str_is_utf8(self.inner);
                lemma_word_offsets(self@);
                is_char_boundary_start_end_of_seq(self@);
            }
            let head = substr(self.inner, 0, eow);
            proof {
                encode_utf8_decode_utf8(head@);
            }
            s.append(head);
        } else {
            assert(s@ =~= s@ + Seq::<char>::empty());
        }
    }

    /// The offset of the first unescaped slash at or after `start`, or
    /// the length of the word where there is none.
    pub fn find_next_slash(&self, start: usize) -> (r: usize)
        ensures
            r == slash_from(self@, start as int),
            r <= self@.len(),
            start <= self@.len() ==> start <= r,
    {
        let b = self.inner.as_bytes();
        if start > b.len() {
            return b.len();
        }
        find_break(b, start, b.len(), TAG_DELIM, false)
    }

    /// The offsets at which the surface form and the part of speech end.
    pub fn find_end_of_surface_and_pos(&self) -> (r: (usize, usize))
        ensures
            r.0 == surface_end(self@),
            r.1 == pos_end(self@),
            r.0 <= r.1 <= self@.len(),
    {
        let first = self.find_next_slash(0);
        let eow = if first == self.inner.as_bytes().len() {
            first
        } else {
            self.find_next_slash(first + 1)
        };
        (first, eow)
    }

    /// The surface form of the word, and its part of speech where the
    /// field behind the surface form names one.
    pub fn surface_and_pos(&self) -> (r: (Surface<'a>, Option<PoS>))
        ensures
            r.0@ == self@.subrange(0, surface_end(self@)),
            r.1 == if surface_end(self@) == self@.len() {
                None
            } else {
                PoS::named(decode_utf8(self@.subrange(surface_end(self@) + 1, pos_end(self@))))
            },
    {
        let (first, eow) = self.find_end_of_surface_and_pos();
        proof {
            lemma_str_is_utf8(self.inner);
            lemma_word_offsets(self@);
            is_char_boundary_start_end_of_seq(self@);
        }
        let surface = Surface(substr(self.inner, 0, first));
        let pos = if first == self.inner.as_bytes().len() {
            None
        } else {
            let field = substr(self.inner, first + 1, eow);
            proof {
                encode_utf8_decode_utf8(field@);
            }
            PoS::parse(field)
        };
        (surface, pos)
    }
}

} // verus!
