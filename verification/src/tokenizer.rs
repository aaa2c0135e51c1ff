//! The token materializer: numbered tokens with byte offsets into the
//! text, made from a word stream.

use crate::surface::Surface;
use crate::tag::{field_or_empty, fields_after, tag_fields, Tags};
use crate::word_iterator::WordIterator;
use core::ops::ControlFlow;
use vstd::prelude::*;
use vstd::string::*;
use vstd::utf8::*;

verus! {

/// `String::clear` of the standard library: the string holds no character
/// afterwards. Its documentation says that the string is truncated to
/// length zero and keeps its capacity.
pub assume_specification[ String::clear ](s: &mut String)
    ensures
        final(s)@ == Seq::<char>::empty(),
;

/// A token for an index: where the word stands in the text, which place it
/// has among the tokens handed out, and its surface form.
#[derive(Debug, Clone, Eq, PartialEq)]
pub struct Token {
    /// Offset (byte index) of the first byte of the word.
    pub offset_from: usize,
    /// Offset (byte index) after the last byte of the word, tags included.
    pub offset_to: usize,
    /// Position, expressed in number of tokens.
    pub position: usize,
    /// The surface form of the word.
    pub text: String,
}

impl Default for Token {
    fn default() -> (t: Self)
        ensures
            t.offset_from == 0,
            t.offset_to == 0,
            t.position == usize::MAX,
            t.text@ == Seq::<char>::empty(),
    {
        Token { offset_from: 0, offset_to: 0, position: usize::MAX, text: String::new() }
    }
}

/// Whether `token` is the token of the word that covers `span` of the text
/// `source` and is handed out at place `position`: its offsets are those
/// of the span, so that they cut the word out of the text with its tags,
/// and its text is the first field of the word.
pub open spec fn is_token_of(token: Token, source: Seq<u8>, span: (int, int), position: int) -> bool {
    &&& 0 <= span.0 < span.1 <= source.len()
    &&& token.offset_from == span.0
    &&& token.offset_to == span.1
    &&& token.position == position
    &&& encode_utf8(token.text@) == field_or_empty(tag_fields(source.subrange(span.0, span.1)))
}

/// Overwrites `token` with the word that starts at `offset_from`, is
/// `len_consumed` bytes long and has the surface form `surface`.
pub fn set_token<'a>(
    token: &mut Token,
    i: usize,
    surface: Surface<'a>,
    offset_from: usize,
    len_consumed: usize,
)
    requires
        offset_from + len_consumed <= usize::MAX,
    ensures
        final(token).text@ == surface.0@,
        final(token).position == i,
        final(token).offset_from == offset_from,
        final(token).offset_to == offset_from + len_consumed,
{
    token.text.clear();
    token.text.append(surface.as_str());
    token.position = i;
    token.offset_from = offset_from;
    token.offset_to = offset_from + len_consumed;
}

/// Takes the next word off `it` and makes `token` its token, at place
/// `count`; hands back what the fields behind the surface form decode
/// to. Breaks, and changes nothing, when no word is left.
///
/// The count may not be ahead of the bytes read, so that it cannot run
/// over: each word has a byte at least.
pub fn advance_token<'a, T: Tags<'a>>(
    it: &mut WordIterator<'a, (Surface<'a>, T)>,
    count: &mut usize,
    token: &mut Token,
) -> (r: ControlFlow<(), T>)
    requires
        *old(count) <= old(it).cursor().start(),
    ensures
        final(it).cursor().source() == old(it).cursor().source(),
        final(it).cursor().by_lines() == old(it).cursor().by_lines(),
        final(it).cursor().end() == old(it).cursor().end(),
        *final(count) <= final(it).cursor().start(),
        match r {
            ControlFlow::Continue(tags) => {
                &&& old(it)@.len() > 0
                &&& final(it)@ == old(it)@.drop_first()
                &&& final(it).cursor().spans() == old(it).cursor().spans().drop_first()
                &&& is_token_of(
                    *final(token),
                    old(it).cursor().source(),
                    old(it).cursor().spans()[0],
                    *old(count) as int,
                )
                &&& tags.decoded_from(fields_after(tag_fields(old(it)@[0]), 1))
                &&& *final(count) == *old(count) + 1
            },
            ControlFlow::Break(_) => {
                &&& old(it)@.len() == 0
                &&& final(it)@.len() == 0
                &&& *final(token) == *old(token)
                &&& *final(count) == *old(count)
            },
        },
{
    match it.next() {
        Some((surface, tags)) => {
            let i = *count;
            *count = i + 1;
            set_token(token, i, surface, it.last_consumed_offset(), it.last_consumed_len());
            ControlFlow::Continue(tags)
        },
        None => ControlFlow::Break(()),
    }
}

/// A stream of tokens over every word of a text.
pub struct TokenStreamParseOnly<'a, T = ()> {
    tokenized_text: WordIterator<'a, (Surface<'a>, T)>,
    count: usize,
    /// What the fields behind the surface form of the last word decoded
    /// to.
    pub tags: T,
    /// The token of the last word.
    pub current_token: Token,
}

impl<'a> TokenStreamParseOnly<'a, ()> {
    /// A stream over the words of `tokenized_text` that has handed out no
    /// token yet.
    pub fn from_tokenized_text(tokenized_text: &'a str) -> (stream: Self)
        ensures
            stream.wf(),
            stream.words().cursor().source() == tokenized_text.spec_bytes(),
            stream.words().cursor().start() == 0,
            stream.words().cursor().end() == tokenized_text.spec_bytes().len(),
            stream.words().cursor().by_lines(),
            stream.emitted() == 0,
            stream.token().offset_from == 0,
            stream.token().offset_to == 0,
            stream.token().position == usize::MAX,
            stream.token().text@ == Seq::<char>::empty(),
    {
        TokenStreamParseOnly {
            tokenized_text: WordIterator::from_lines(tokenized_text),
            count: 0,
            tags: (),
            current_token: Token::default(),
        }
    }
}

impl<'a, T: Tags<'a>> TokenStreamParseOnly<'a, T> {
    /// The word stream that the tokens are made from.
    pub closed spec fn words(self) -> WordIterator<'a, (Surface<'a>, T)> {
        self.tokenized_text
    }

    /// How many tokens have been handed out.
    pub closed spec fn emitted(self) -> int {
        self.count as int
    }

    /// The token of the last word.
    pub closed spec fn token(self) -> Token {
        self.current_token
    }

    /// What the fields behind the surface form of the last word decoded
    /// to.
    pub closed spec fn tags_value(self) -> T {
        self.tags
    }

    /// No more tokens have been handed out than bytes have been read.
    pub closed spec fn wf(self) -> bool {
        self.count <= self.tokenized_text.cursor().start()
    }

    /// Moves on to the next word and makes `current_token` its token.
    /// Breaks, and changes nothing, when no word is left.
    pub fn advance_token(&mut self) -> (r: ControlFlow<()>)
        requires
            old(self).wf(),
        ensures
            final(self).wf(),
            final(self).words().cursor().source() == old(self).words().cursor().source(),
            match r {
                ControlFlow::Continue(_) => {
                    &&& old(self).words()@.len() > 0
                    &&& final(self).words()@ == old(self).words()@.drop_first()
                    &&& is_token_of(
                        final(self).token(),
                        old(self).words().cursor().source(),
                        old(self).words().cursor().spans()[0],
                        old(self).emitted(),
                    )
                    &&& final(self).tags_value().decoded_from(
                        fields_after(tag_fields(old(self).words()@[0]), 1),
                    )
                    &&& final(self).emitted() == old(self).emitted() + 1
                },
                ControlFlow::Break(_) => {
                    &&& old(self).words()@.len() == 0
                    &&& final(self).words()@.len() == 0
                    &&& final(self).token() == old(self).token()
                    &&& final(self).tags_value() == old(self).tags_value()
                    &&& final(self).emitted() == old(self).emitted()
                },
            },
    {
        match advance_token(&mut self.tokenized_text, &mut self.count, &mut self.current_token) {
            ControlFlow::Continue(tags) => {
                self.tags = tags;
                ControlFlow::Continue(())
            },
            ControlFlow::Break(_) => ControlFlow::Break(()),
        }
    }
}

/// The predicate `pred` turns down some value that the word `word`
/// decodes to.
pub open spec fn turns_down<'a, T: Tags<'a>, F: Fn(&(Surface<'a>, T)) -> bool>(
    pred: F,
    word: Seq<u8>,
) -> bool {
    exists|item: (Surface<'a>, T)|
        #[trigger] item.decoded_from(tag_fields(word)) && call_ensures(pred, (&item,), false)
}

/// The predicate `pred` lets through a value that the word `word` decodes
/// to and whose fields behind the surface form are `tags`.
pub open spec fn lets_through<'a, T: Tags<'a>, F: Fn(&(Surface<'a>, T)) -> bool>(
    pred: F,
    word: Seq<u8>,
    tags: T,
) -> bool {
    exists|item: (Surface<'a>, T)|
        #[trigger] item.decoded_from(tag_fields(word)) && item.1 == tags && call_ensures(
            pred,
            (&item,),
            true,
        )
}

/// Takes words off `it` until `predicate` lets one through, and makes
/// `token` the token of that word, at place `count`. The words turned down
/// get no token and no place. Breaks when no word is let through.
///
/// The count may not be ahead of the bytes read, so that it cannot run
/// over, and the predicate has to take every value.
pub fn advance_token_filtered<'a, T: Tags<'a>, F: Fn(&(Surface<'a>, T)) -> bool>(
    it: &mut WordIterator<'a, (Surface<'a>, T)>,
    count: &mut usize,
    predicate: &F,
    token: &mut Token,
) -> (r: ControlFlow<(), T>)
    requires
        *old(count) <= old(it).cursor().start(),
        forall|item: (Surface<'a>, T)| call_requires(*predicate, (&item,)),
    ensures
        final(it).cursor().source() == old(it).cursor().source(),
        final(it).cursor().by_lines() == old(it).cursor().by_lines(),
        final(it).cursor().end() == old(it).cursor().end(),
        *final(count) <= final(it).cursor().start(),
        match r {
            ControlFlow::Continue(tags) => exists|k: int|
                {
                    &&& 0 <= k < old(it)@.len()
                    &&& forall|j: int| 0 <= j < k ==> turns_down(*predicate, #[trigger] old(it)@[j])
                    &&& lets_through(*predicate, old(it)@[k], tags)
                    &&& #[trigger] is_token_of(
                        *final(token),
                        old(it).cursor().source(),
                        old(it).cursor().spans()[k],
                        *old(count) as int,
                    )
                    &&& final(it)@ == old(it)@.skip(k + 1)
                    &&& final(it).cursor().spans() == old(it).cursor().spans().skip(k + 1)
                    &&& *final(count) == *old(count) + 1
                },
            ControlFlow::Break(_) => {
                &&& forall|j: int|
                    0 <= j < old(it)@.len() ==> turns_down(*predicate, #[trigger] old(it)@[j])
                &&& final(it)@.len() == 0
                &&& *final(token) == *old(token)
                &&& *final(count) == *old(count)
            },
        },
{
    let ghost all = it@;
    let ghost all_spans = it.cursor().spans();
    let ghost src = it.cursor().source();
    let ghost n: int = 0;
    assert(all.skip(0) =~= all);
    assert(all_spans.skip(0) =~= all_spans);
    loop
        invariant
            0 <= n <= all.len(),
            all.len() == all_spans.len(),
            all == old(it)@,
            all_spans == old(it).cursor().spans(),
            src == old(it).cursor().source(),
            it@ == all.skip(n),
            it.cursor().spans() == all_spans.skip(n),
            it.cursor().source() == old(it).cursor().source(),
            it.cursor().by_lines() == old(it).cursor().by_lines(),
            it.cursor().end() == old(it).cursor().end(),
            forall|j: int| 0 <= j < n ==> turns_down(*predicate, #[trigger] all[j]),
            forall|item: (Surface<'a>, T)| call_requires(*predicate, (&item,)),
            *count == *old(count),
            *token == *old(token),
            *count <= it.cursor().start(),
        decreases all.len() - n,
    {
        match it.next() {
            Some(item) => {
                proof {
                    assert(all.skip(n)[0] == all[n]);
                    assert(all_spans.skip(n)[0] == all_spans[n]);
                    assert(all.skip(n).drop_first() =~= all.skip(n + 1));
                    assert(all_spans.skip(n).drop_first() =~= all_spans.skip(n + 1));
                }
                if predicate(&item) {
                    let i = *count;
                    *count = i + 1;
                    set_token(token, i, item.0, it.last_consumed_offset(), it.last_consumed_len());
                    proof {
                        assert(lets_through(*predicate, all[n], item.1));
                        assert(all[n] == src.subrange(all_spans[n].0, all_spans[n].1));
                        assert(is_token_of(*token, src, all_spans[n], *old(count) as int));
                    }
                    return ControlFlow::Continue(item.1);
                }
                proof {
                    assert(turns_down(*predicate, all[n]));
                    n = n + 1;
                }
            },
            None => {
                assert(n == all.len());
                return ControlFlow::Break(());
            },
        }
    }
}

/// A stream of tokens over the words of a text that a predicate lets
/// through.
pub struct TokenStreamParseWithFilter<'a, F, T = ()> {
    tokenized_text: WordIterator<'a, (Surface<'a>, T)>,
    count: usize,
    predicate: F,
    /// What the fields behind the surface form of the last word decoded
    /// to.
    pub tags: T,
    /// The token of the last word.
    pub current_token: Token,
}

impl<'a, F: Fn(&(Surface<'a>, ())) -> bool> TokenStreamParseWithFilter<'a, F, ()> {
    /// A stream over the words of `tokenized_text` that `filter` lets
    /// through. It has handed out no token yet.
    pub fn from_tokenized_text(tokenized_text: &'a str, filter: F) -> (stream: Self)
        requires
            forall|item: (Surface<'a>, ())| call_requires(filter, (&item,)),
        ensures
            stream.wf(),
            stream.filter() == filter,
            stream.words().cursor().source() == tokenized_text.spec_bytes(),
            stream.words().cursor().start() == 0,
            stream.words().cursor().end() == tokenized_text.spec_bytes().len(),
            stream.words().cursor().by_lines(),
            stream.emitted() == 0,
            stream.token().offset_from == 0,
            stream.token().offset_to == 0,
            stream.token().position == usize::MAX,
            stream.token().text@ == Seq::<char>::empty(),
    {
        Self::with_tags(tokenized_text, filter, ())
    }
}

impl<'a, F: Fn(&(Surface<'a>, T)) -> bool, T: Tags<'a>> TokenStreamParseWithFilter<'a, F, T> {
    /// The word stream that the tokens are made from.
    pub closed spec fn words(self) -> WordIterator<'a, (Surface<'a>, T)> {
        self.tokenized_text
    }

    /// How many tokens have been handed out.
    pub closed spec fn emitted(self) -> int {
        self.count as int
    }

    /// The predicate that words have to pass.
    pub closed spec fn filter(self) -> F {
        self.predicate
    }

    /// The token of the last word let through.
    pub closed spec fn token(self) -> Token {
        self.current_token
    }

    /// What the fields behind the surface form of the last word let
    /// through decoded to.
    pub closed spec fn tags_value(self) -> T {
        self.tags
    }

    /// No more tokens have been handed out than bytes have been read, and
    /// the predicate takes every value.
    pub closed spec fn wf(self) -> bool {
        &&& self.count <= self.tokenized_text.cursor().start()
        &&& forall|item: (Surface<'a>, T)| call_requires(self.predicate, (&item,))
    }

    /// A stream over the words of `tokenized_text` that `filter` lets
    /// through, with `tags` in the place of the decoded fields until the
    /// first token is made.
    pub fn with_tags(tokenized_text: &'a str, filter: F, tags: T) -> (stream: Self)
        requires
            forall|item: (Surface<'a>, T)| call_requires(filter, (&item,)),
        ensures
            stream.wf(),
            stream.filter() == filter,
            stream.tags_value() == tags,
            stream.words().cursor().source() == tokenized_text.spec_bytes(),
            stream.words().cursor().start() == 0,
            stream.words().cursor().end() == tokenized_text.spec_bytes().len(),
            stream.words().cursor().by_lines(),
            stream.emitted() == 0,
            stream.token().offset_from == 0,
            stream.token().offset_to == 0,
            stream.token().position == usize::MAX,
            stream.token().text@ == Seq::<char>::empty(),
    {
        TokenStreamParseWithFilter {
            tokenized_text: WordIterator::from_lines(tokenized_text),
            count: 0,
            predicate: filter,
            tags,
            current_token: Token::default(),
        }
    }

    /// Moves on to the next word that the predicate lets through and makes
    /// `current_token` its token. Breaks when no such word is left.
    pub fn advance_token(&mut self) -> (r: ControlFlow<()>)
        requires
            old(self).wf(),
        ensures
            final(self).wf(),
            final(self).filter() == old(self).filter(),
            final(self).words().cursor().source() == old(self).words().cursor().source(),
            match r {
                ControlFlow::Continue(_) => exists|k: int|
                    {
                        &&& 0 <= k < old(self).words()@.len()
                        &&& forall|j: int|
                            0 <= j < k ==> turns_down(
                                old(self).filter(),
                                #[trigger] old(self).words()@[j],
                            )
                        &&& lets_through(
                            old(self).filter(),
                            old(self).words()@[k],
                            final(self).tags_value(),
                        )
                        &&& #[trigger] is_token_of(
                            final(self).token(),
                            old(self).words().cursor().source(),
                            old(self).words().cursor().spans()[k],
                            old(self).emitted(),
                        )
                        &&& final(self).words()@ == old(self).words()@.skip(k + 1)
                        &&& final(self).emitted() == old(self).emitted() + 1
                    },
                ControlFlow::Break(_) => {
                    &&& forall|j: int|
                        0 <= j < old(self).words()@.len() ==> turns_down(
                            old(self).filter(),
                            #[trigger] old(self).words()@[j],
                        )
                    &&& final(self).words()@.len() == 0
                    &&& final(self).token() == old(self).token()
                    &&& final(self).tags_value() == old(self).tags_value()
                    &&& final(self).emitted() == old(self).emitted()
                },
            },
    {
        let ghost before = *self;
        match advance_token_filtered(
            &mut self.tokenized_text,
            &mut self.count,
            &self.predicate,
            &mut self.current_token,
        ) {
            ControlFlow::Continue(tags) => {
                let ghost k = choose|k: int|
                    {
                        &&& 0 <= k < before.words()@.len()
                        &&& forall|j: int|
                            0 <= j < k ==> turns_down(before.filter(), #[trigger] before.words()@[j])
                        &&& lets_through(before.filter(), before.words()@[k], tags)
                        &&& #[trigger] is_token_of(
                            self.current_token,
                            before.words().cursor().source(),
                            before.words().cursor().spans()[k],
                            before.emitted(),
                        )
                        &&& self.tokenized_text@ == before.words()@.skip(k + 1)
                        &&& self.count == before.count + 1
                    };
                self.tags = tags;
                proof {
                    assert(is_token_of(
                        self.token(),
                        before.words().cursor().source(),
                        before.words().cursor().spans()[k],
                        before.emitted(),
                    ));
                }
                ControlFlow::Continue(())
            },
            ControlFlow::Break(_) => ControlFlow::Break(()),
        }
    }
}

/// The maker of token streams that take every word.
#[derive(Debug, Clone, Copy)]
pub struct ParseOnly;

impl ParseOnly {
    /// A token stream over the words of `text`.
    pub fn token_stream<'a>(&self, text: &'a str) -> (stream: TokenStreamParseOnly<'a, ()>)
        ensures
            stream.wf(),
            stream.words().cursor().source() == text.spec_bytes(),
            stream.words().cursor().start() == 0,
            stream.words().cursor().end() == text.spec_bytes().len(),
            stream.words().cursor().by_lines(),
            stream.emitted() == 0,
            stream.token().offset_from == 0,
            stream.token().offset_to == 0,
            stream.token().position == usize::MAX,
            stream.token().text@ == Seq::<char>::empty(),
    {
        TokenStreamParseOnly::from_tokenized_text(text)
    }
}

/// The maker of a token stream that takes the words that its predicate
/// lets through.
#[derive(Debug, Clone)]
pub struct ParseWithFilter<F>(pub F);

impl<F> ParseWithFilter<F> {
    /// A token stream over the words of `text` that the predicate lets
    /// through.
    pub fn token_stream<'a>(self, text: &'a str) -> (stream: TokenStreamParseWithFilter<'a, F, ()>)
        where F: Fn(&(Surface<'a>, ())) -> bool
        requires
            forall|item: (Surface<'a>, ())| call_requires(self.0, (&item,)),
        ensures
            stream.wf(),
            stream.filter() == self.0,
            stream.words().cursor().source() == text.spec_bytes(),
            stream.words().cursor().start() == 0,
            stream.words().cursor().end() == text.spec_bytes().len(),
            stream.words().cursor().by_lines(),
            stream.emitted() == 0,
            stream.token().offset_from == 0,
            stream.token().offset_to == 0,
            stream.token().position == usize::MAX,
            stream.token().text@ == Seq::<char>::empty(),
    {
        TokenStreamParseWithFilter::from_tokenized_text(text, self.0)
    }
}

} // verus!
