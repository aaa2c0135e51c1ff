//! The surface form of a word: its first field, as it stands in the text.

use crate::escape::{CARRIAGE_RETURN, ESCAPE, NEWLINE, WORD_DELIM};
use crate::tag::{field_or_empty, fields_after, TagIterator, Tags};
use vstd::prelude::*;
use vstd::string::*;

verus! {

/// Whether `c` is a blank of ASCII: a space, a tab, a line feed, a form
/// feed or a carriage return.
pub open spec fn is_ascii_blank(c: u8) -> bool {
    c == 0x20 || c == WORD_DELIM || c == NEWLINE || c == 0x0c || c == CARRIAGE_RETURN
}

/// Whether the bytes `b` start with a blank of ASCII or with an escaped
/// tab.
pub open spec fn starts_blank(b: Seq<u8>) -> bool {
    b.len() >= 1 && is_ascii_blank(b[0]) || b.len() >= 2 && b[0] == ESCAPE && b[1] == WORD_DELIM
}

/// The surface form of a word, borrowed from the text that holds it.
#[derive(Debug, Clone, Copy, PartialEq, Eq, PartialOrd, Ord, Hash)]
pub struct Surface<'a>(pub &'a str);

impl<'a> Surface<'a> {
    /// The bytes of the surface form.
    pub open spec fn view(self) -> Seq<u8> {
        self.0.spec_bytes()
    }

    /// Whether the surface form starts with a blank of ASCII or with an
    /// escaped tab.
    pub fn is_ascii_whitespace(self) -> (r: bool)
        ensures
            r == starts_blank(self@),
    {
        let inner = self.0.as_bytes();
        inner.len() >= 1 && (inner[0] == 0x20 || inner[0] == WORD_DELIM || inner[0] == NEWLINE
            || inner[0] == 0x0c || inner[0] == CARRIAGE_RETURN) || inner.len() >= 2 && inner[0]
            == ESCAPE && inner[1] == WORD_DELIM
    }

    /// The bytes of the surface form.
    pub fn as_bytes(self) -> (r: &'a [u8])
        ensures
            r@ == self@,
    {
        self.0.as_bytes()
    }

    /// The surface form as a string slice.
    pub fn as_str(self) -> (r: &'a str)
        ensures
            r == self.0,
    {
        self.0
    }

    /// The length of the surface form in bytes.
    pub fn len(self) -> (r: usize)
        ensures
            r == self@.len(),
    {
        self.0.as_bytes().len()
    }

    /// Whether the surface form holds no byte.
    pub fn is_empty(self) -> (r: bool)
        ensures
            r == (self@.len() == 0),
    {
        self.0.as_bytes().len() == 0
    }
}

/// The next field as it stands in the text, or the empty surface form.
impl<'a> Tags<'a> for Surface<'a> {
    open spec fn width() -> nat {
        1
    }

    open spec fn decoded_from(&self, fields: Seq<Seq<u8>>) -> bool {
        self@ == field_or_empty(fields)
    }

    fn from_tags(tags: &mut TagIterator<'a>) -> (r: Self) {
        Surface(<&str as Tags>::from_tags(tags))
    }
}

} // verus!
