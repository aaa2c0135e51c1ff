//! The word stream: the words of a text of several lines, each decoded
//! into a value, from either end.

use crate::tag::{tag_fields, TagIterator, Tags};
use crate::words::Words;
use core::marker::PhantomData;
use vstd::prelude::*;
use vstd::string::*;

verus! {

/// A cursor over the decoded words of a text. Each line is scanned by
/// itself; lines without a word give nothing.
#[derive(Debug)]
pub struct WordIterator<'a, T> {
    word_it: Words<'a>,
    /// The length in bytes of the word handed out last, tags included.
    pub len_last_consumed: usize,
    /// The offset in the text of the word handed out last.
    pub offset_last_consumed: usize,
    phantom: PhantomData<T>,
}

impl<'a, T> WordIterator<'a, T> {
    /// The word cursor under the stream.
    pub closed spec fn cursor(self) -> Words<'a> {
        self.word_it
    }

    /// The length in bytes of the word handed out last, tags included.
    pub closed spec fn consumed_len(self) -> usize {
        self.len_last_consumed
    }

    /// The offset in the text of the word handed out last.
    pub closed spec fn consumed_offset(self) -> usize {
        self.offset_last_consumed
    }

    /// The words not yet handed out, as bytes.
    pub open spec fn view(self) -> Seq<Seq<u8>> {
        self.cursor()@
    }

    /// The length in bytes of the word handed out last, tags included.
    pub fn last_consumed_len(&self) -> (r: usize)
        ensures
            r == self.consumed_len(),
    {
        self.len_last_consumed
    }

    /// The offset in the text of the word handed out last.
    pub fn last_consumed_offset(&self) -> (r: usize)
        ensures
            r == self.consumed_offset(),
    {
        self.offset_last_consumed
    }

    /// A stream over the words of all lines of `lines`.
    pub fn from_lines(lines: &'a str) -> (it: Self)
        ensures
            it.cursor().source() == lines.spec_bytes(),
            it.cursor().start() == 0,
            it.cursor().end() == lines.spec_bytes().len(),
            it.cursor().by_lines(),
            it.consumed_len() == 0,
            it.consumed_offset() == 0,
    {
        WordIterator {
            word_it: Words::from_lines(lines),
            len_last_consumed: 0,
            offset_last_consumed: 0,
            phantom: PhantomData,
        }
    }

    /// A stream at the same place of the same text that decodes into
    /// another type. It has handed out nothing yet.
    pub fn clone_with_tags<NewT: Tags<'a>>(&self) -> (it: WordIterator<'a, NewT>)
        ensures
            it.cursor() == self.cursor(),
            it.consumed_len() == 0,
            it.consumed_offset() == 0,
    {
        WordIterator {
            word_it: self.word_it,
            len_last_consumed: 0,
            offset_last_consumed: 0,
            phantom: PhantomData,
        }
    }
}

impl<'a, T> Clone for WordIterator<'a, T> {
    fn clone(&self) -> (it: Self)
        ensures
            it.cursor() == self.cursor(),
            it.consumed_len() == self.consumed_len(),
            it.consumed_offset() == self.consumed_offset(),
    {
        WordIterator {
            word_it: self.word_it,
            len_last_consumed: self.len_last_consumed,
            offset_last_consumed: self.offset_last_consumed,
            phantom: PhantomData,
        }
    }
}

impl<'a, T: Tags<'a>> WordIterator<'a, T> {
    /// Takes the first word off the front and decodes it.
    pub fn next(&mut self) -> (r: Option<T>)
        ensures
            final(self).cursor().source() == old(self).cursor().source(),
            final(self).cursor().by_lines() == old(self).cursor().by_lines(),
            final(self).cursor().end() == old(self).cursor().end(),
            0 <= old(self).cursor().start() <= final(self).cursor().start() <= usize::MAX,
            match r {
                Some(v) => {
                    &&& old(self)@.len() > 0
                    &&& v.decoded_from(tag_fields(old(self)@[0]))
                    &&& final(self)@ == old(self)@.drop_first()
                    &&& final(self).cursor().spans() == old(self).cursor().spans().drop_first()
                    &&& final(self).consumed_offset() == old(self).cursor().spans()[0].0
                    &&& final(self).consumed_offset() + final(self).consumed_len() == old(
                        self,
                    ).cursor().spans()[0].1
                    &&& final(self).cursor().start() == old(self).cursor().spans()[0].1
                    &&& 0 <= old(self).cursor().spans()[0].0 < old(self).cursor().spans()[0].1
                        <= old(self).cursor().source().len()
                    &&& old(self).cursor().start() < final(self).cursor().start() <= old(
                        self,
                    ).cursor().source().len()
                },
                None => {
                    &&& old(self)@.len() == 0
                    &&& final(self)@.len() == 0
                    &&& final(self).consumed_len() == old(self).consumed_len()
                    &&& final(self).consumed_offset() == old(self).consumed_offset()
                },
            },
    {
        let ghost before = self.word_it;
        match self.word_it.next() {
            None => None,
            Some(word) => {
                proof {
                    let span = before.spans()[0];
                    assert(before@[0] == before.source().subrange(span.0, span.1));
                    assert(word.spec_bytes().len() == span.1 - span.0);
                }
                let len = word.as_bytes().len();
                let end = self.word_it.start_offset();
                self.len_last_consumed = len;
                self.offset_last_consumed = end - len;
                let mut tags = TagIterator::from(word);
                Some(T::from_tags(&mut tags))
            },
        }
    }

    /// Takes the last word off the back and decodes it.
    pub fn next_back(&mut self) -> (r: Option<T>)
        ensures
            final(self).cursor().source() == old(self).cursor().source(),
            final(self).cursor().by_lines() == old(self).cursor().by_lines(),
            final(self).cursor().start() == old(self).cursor().start(),
            0 <= final(self).cursor().end() <= old(self).cursor().end() <= usize::MAX,
            match r {
                Some(v) => {
                    &&& old(self)@.len() > 0
                    &&& v.decoded_from(tag_fields(old(self)@.last()))
                    &&& final(self)@ == old(self)@.drop_last()
                    &&& final(self).cursor().spans() == old(self).cursor().spans().drop_last()
                    &&& final(self).consumed_offset() == old(self).cursor().spans().last().0
                    &&& final(self).consumed_offset() + final(self).consumed_len() == old(
                        self,
                    ).cursor().spans().last().1
                    &&& final(self).cursor().end() == old(self).cursor().spans().last().0
                    &&& 0 <= old(self).cursor().spans().last().0 < old(
                        self,
                    ).cursor().spans().last().1 <= old(self).cursor().source().len()
                },
                None => {
                    &&& old(self)@.len() == 0
                    &&& final(self)@.len() == 0
                    &&& final(self).consumed_len() == old(self).consumed_len()
                    &&& final(self).consumed_offset() == old(self).consumed_offset()
                },
            },
    {
        let ghost before = self.word_it;
        match self.word_it.next_back() {
            None => None,
            Some(word) => {
                proof {
                    let span = before.spans().last();
                    assert(before@.last() == before.source().subrange(span.0, span.1));
                    assert(word.spec_bytes().len() == span.1 - span.0);
                }
                self.len_last_consumed = word.as_bytes().len();
                self.offset_last_consumed = self.word_it.end_offset();
                let mut tags = TagIterator::from(word);
                Some(T::from_tags(&mut tags))
            },
        }
    }
}

} // verus!
