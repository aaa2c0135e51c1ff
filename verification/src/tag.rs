//! The tag scanner, which splits a word into its fields, and the decoders
//! that turn fields into values.

use crate::escape::{find_break, is_break, lemma_next_break_found, next_break, TAG_DELIM};
use crate::text::{lemma_ascii_is_char, lemma_str_is_utf8, substr};
use vstd::prelude::*;
use vstd::string::*;
use vstd::utf8::*;

verus! {

/// The fields of the word `b`: the stretches between its unescaped
/// slashes. Two slashes in a row hold a field of no length between them;
/// a slash at the very end has no field after it.
pub open spec fn tag_fields(b: Seq<u8>) -> Seq<Seq<u8>>
    decreases b.len(),
{
    let k = next_break(b, 0, b.len() as int, TAG_DELIM, false, 0);
    if b.len() == 0 {
        Seq::empty()
    } else if 0 <= k < b.len() {
        seq![b.subrange(0, k)] + tag_fields(b.subrange(k + 1, b.len() as int))
    } else {
        seq![b]
    }
}

/// What is left of `fields` once `n` of them are used up.
pub open spec fn fields_after(fields: Seq<Seq<u8>>, n: nat) -> Seq<Seq<u8>> {
    if n <= fields.len() {
        fields.skip(n as int)
    } else {
        Seq::empty()
    }
}

/// The first of `fields`, or no bytes where there is none.
pub open spec fn field_or_empty(fields: Seq<Seq<u8>>) -> Seq<u8> {
    if fields.len() > 0 {
        fields[0]
    } else {
        Seq::empty()
    }
}

/// Using up `m` fields and then `n` more is using up `m + n`.
pub proof fn lemma_fields_after_twice(fields: Seq<Seq<u8>>, m: nat, n: nat)
    ensures
        fields_after(fields_after(fields, m), n) == fields_after(fields, m + n),
{
    assert(fields_after(fields_after(fields, m), n) =~= fields_after(fields, m + n));
}

/// A cursor over the fields of one word, front to back.
#[derive(Debug, PartialEq, Eq, Clone, Copy)]
pub struct TagIterator<'a> {
    inner: &'a str,
}

impl<'a> TagIterator<'a> {
    /// The bytes that no field has been cut from yet.
    pub closed spec fn rest(self) -> Seq<u8> {
        self.inner.spec_bytes()
    }

    /// The fields not yet handed out.
    pub open spec fn view(self) -> Seq<Seq<u8>> {
        tag_fields(self.rest())
    }

    /// A cursor over the fields of the word `inner`.
    pub fn from(inner: &'a str) -> (t: Self)
        ensures
            t.rest() == inner.spec_bytes(),
    {
        TagIterator { inner }
    }

    /// The offset of the first unescaped slash, or the length of what is
    /// left where there is none.
    pub fn find_next_slash(self) -> (k: usize)
        ensures
            k <= self.rest().len(),
            k == next_break(self.rest(), 0, self.rest().len() as int, TAG_DELIM, false, 0),
    {
        let b = self.inner.as_bytes();
        find_break(b, 0, b.len(), TAG_DELIM, false)
    }

    /// Takes the first field off the front.
    pub fn next(&mut self) -> (r: Option<&'a str>)
        ensures
            match r {
                Some(f) => {
                    &&& old(self)@.len() > 0
                    &&& f.spec_bytes() == old(self)@[0]
                    &&& final(self)@ == old(self)@.drop_first()
                },
                None => old(self)@.len() == 0 && final(self)@.len() == 0,
            },
    {
        let n = self.inner.as_bytes().len();
        if n == 0 {
            return None;
        }
        let ind = self.find_next_slash();
        let ghost b = self.inner.spec_bytes();
        proof {
            lemma_str_is_utf8(self.inner);
            is_char_boundary_start_end_of_seq(b);
            lemma_next_break_found(b, 0, n as int, TAG_DELIM, false, 0);
            if ind < n {
                assert(is_break(b, 0, n as int, TAG_DELIM, false, ind as int));
                lemma_ascii_is_char(b, ind as int);
            }
        }
        let ret = substr(self.inner, 0, ind);
        self.inner = if ind == n {
            substr(self.inner, n, n)
        } else {
            substr(self.inner, ind + 1, n)
        };
        proof {
            if ind == n {
                assert(b.subrange(0, n as int) =~= b);
                assert(tag_fields(b.subrange(n as int, n as int)) =~= Seq::empty());
                assert(tag_fields(b).drop_first() =~= Seq::empty());
            } else {
                assert(tag_fields(b).drop_first() =~= tag_fields(
                    b.subrange(ind + 1, n as int),
                ));
            }
        }
        Some(ret)
    }
}

/// A value that can be decoded from the fields of a word.
pub trait Tags<'a>: Sized {
    /// How many fields a value of this type uses up.
    spec fn width() -> nat;

    /// Whether `self` is what `fields` decode to. Where the fields run
    /// out, the value is decoded as from no field.
    spec fn decoded_from(&self, fields: Seq<Seq<u8>>) -> bool;

    /// Decodes a value from the front of `tags` and leaves the fields
    /// behind it.
    fn from_tags(tags: &mut TagIterator<'a>) -> (r: Self)
        ensures
            r.decoded_from(old(tags)@),
            final(tags)@ == fields_after(old(tags)@, Self::width()),
    ;
}

/// The next field as it stands in the text, or the empty string.
impl<'a> Tags<'a> for &'a str {
    open spec fn width() -> nat {
        1
    }

    open spec fn decoded_from(&self, fields: Seq<Seq<u8>>) -> bool {
        self.spec_bytes() == field_or_empty(fields)
    }

    fn from_tags(tags: &mut TagIterator<'a>) -> (r: Self) {
        let ghost before = tags@;
        match tags.next() {
            Some(tag) => {
                assert(tags@ =~= fields_after(before, 1));
                tag
            },
            None => {
                proof {
                    reveal_strlit("");
                    assert(""@ =~= Seq::<char>::empty());
                    assert("".spec_bytes() =~= Seq::<u8>::empty());
                    assert(tags@ =~= fields_after(before, 1));
                }
                ""
            },
        }
    }
}

/// The next field as a string of its own, or the empty string.
impl<'a> Tags<'a> for String {
    open spec fn width() -> nat {
        1
    }

    open spec fn decoded_from(&self, fields: Seq<Seq<u8>>) -> bool {
        encode_utf8(self@) == field_or_empty(fields)
    }

    fn from_tags(tags: &mut TagIterator<'a>) -> (r: Self) {
        let tag = <&str as Tags>::from_tags(tags);
        String::from_str(tag)
    }
}

} // verus!
