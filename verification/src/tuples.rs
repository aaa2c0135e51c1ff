//! Decoding several values in a row: a tuple takes its members from the
//! fields one after the other.

use crate::pos::PoS;
use crate::surface::Surface;
use crate::tag::{fields_after, lemma_fields_after_twice, TagIterator, Tags};
use vstd::prelude::*;

verus! {

/// What a word of the analyzer's usual output decodes to: the surface
/// form, the part of speech and the reading.
pub type DefaultTags<'a> = (Surface<'a>, PoS, &'a str);

/// The empty tuple uses up no field.
impl<'a> Tags<'a> for () {
    open spec fn width() -> nat {
        0
    }

    open spec fn decoded_from(&self, fields: Seq<Seq<u8>>) -> bool {
        true
    }

    fn from_tags(tags: &mut TagIterator<'a>) -> (r: Self) {
        assert(tags@ =~= fields_after(tags@, 0));
        ()
    }
}

/// A tuple of one member decodes as its member does.
impl<'a, T1: Tags<'a>> Tags<'a> for (T1,) {
    open spec fn width() -> nat {
        T1::width()
    }

    open spec fn decoded_from(&self, fields: Seq<Seq<u8>>) -> bool {
        &&& self.0.decoded_from(fields)
    }

    fn from_tags(tags: &mut TagIterator<'a>) -> (r: Self) {
        let ghost before = tags@;
        let v1 = T1::from_tags(tags);
        (v1,)
    }
}

/// A tuple of two members decodes them one after the other.
impl<'a, T1: Tags<'a>, T2: Tags<'a>> Tags<'a> for (T1, T2) {
    open spec fn width() -> nat {
        T1::width() + T2::width()
    }

    open spec fn decoded_from(&self, fields: Seq<Seq<u8>>) -> bool {
        &&& self.0.decoded_from(fields)
        &&& self.1.decoded_from(fields_after(fields, T1::width()))
    }

    fn from_tags(tags: &mut TagIterator<'a>) -> (r: Self) {
        let ghost before = tags@;
        let v1 = T1::from_tags(tags);
        let v2 = T2::from_tags(tags);
        proof {
            lemma_fields_after_twice(before, T1::width(), T2::width());
        }
        (v1, v2)
    }
}

/// A tuple of three members decodes them one after the other.
impl<'a, T1: Tags<'a>, T2: Tags<'a>, T3: Tags<'a>> Tags<'a> for (T1, T2, T3) {
    open spec fn width() -> nat {
        T1::width() + T2::width() + T3::width()
    }

    open spec fn decoded_from(&self, fields: Seq<Seq<u8>>) -> bool {
        &&& self.0.decoded_from(fields)
        &&& self.1.decoded_from(fields_after(fields, T1::width()))
        &&& self.2.decoded_from(fields_after(fields, T1::width() + T2::width()))
    }

    fn from_tags(tags: &mut TagIterator<'a>) -> (r: Self) {
        let ghost before = tags@;
        let v1 = T1::from_tags(tags);
        let v2 = T2::from_tags(tags);
        proof {
            lemma_fields_after_twice(before, T1::width(), T2::width());
        }
        let v3 = T3::from_tags(tags);
        proof {
            lemma_fields_after_twice(before, T1::width() + T2::width(), T3::width());
        }
        (v1, v2, v3)
    }
}

/// A tuple of four members decodes them one after the other.
impl<'a, T1: Tags<'a>, T2: Tags<'a>, T3: Tags<'a>, T4: Tags<'a>> Tags<'a> for (T1, T2, T3, T4) {
    open spec fn width() -> nat {
        T1::width() + T2::width() + T3::width() + T4::width()
    }

    open spec fn decoded_from(&self, fields: Seq<Seq<u8>>) -> bool {
        &&& self.0.decoded_from(fields)
        &&& self.1.decoded_from(fields_after(fields, T1::width()))
        &&& self.2.decoded_from(fields_after(fields, T1::width() + T2::width()))
        &&& self.3.decoded_from(fields_after(fields, T1::width() + T2::width() + T3::width()))
    }

    fn from_tags(tags: &mut TagIterator<'a>) -> (r: Self) {
        let ghost before = tags@;
        let v1 = T1::from_tags(tags);
        let v2 = T2::from_tags(tags);
        proof {
            lemma_fields_after_twice(before, T1::width(), T2::width());
        }
        let v3 = T3::from_tags(tags);
        proof {
            lemma_fields_after_twice(before, T1::width() + T2::width(), T3::width());
        }
        let v4 = T4::from_tags(tags);
        proof {
            lemma_fields_after_twice(before, T1::width() + T2::width() + T3::width(), T4::width());
        }
        (v1, v2, v3, v4)
    }
}

/// A tuple of five members decodes them one after the other.
impl<'a, T1: Tags<'a>, T2: Tags<'a>, T3: Tags<'a>, T4: Tags<'a>, T5: Tags<'a>> Tags<'a> for (T1, T2, T3, T4, T5) {
    open spec fn width() -> nat {
        T1::width() + T2::width() + T3::width() + T4::width() + T5::width()
    }

    open spec fn decoded_from(&self, fields: Seq<Seq<u8>>) -> bool {
        &&& self.0.decoded_from(fields)
        &&& self.1.decoded_from(fields_after(fields, T1::width()))
        &&& self.2.decoded_from(fields_after(fields, T1::width() + T2::width()))
        &&& self.3.decoded_from(fields_after(fields, T1::width() + T2::width() + T3::width()))
        &&& self.4.decoded_from(fields_after(fields, T1::width() + T2::width() + T3::width() + T4::width()))
    }

    fn from_tags(tags: &mut TagIterator<'a>) -> (r: Self) {
        let ghost before = tags@;
        let v1 = T1::from_tags(tags);
        let v2 = T2::from_tags(tags);
        proof {
            lemma_fields_after_twice(before, T1::width(), T2::width());
        }
        let v3 = T3::from_tags(tags);
        proof {
            lemma_fields_after_twice(before, T1::width() + T2::width(), T3::width());
        }
        let v4 = T4::from_tags(tags);
        proof {
            lemma_fields_after_twice(before, T1::width() + T2::width() + T3::width(), T4::width());
        }
        let v5 = T5::from_tags(tags);
        proof {
            lemma_fields_after_twice(before, T1::width() + T2::width() + T3::width() + T4::width(), T5::width());
        }
        (v1, v2, v3, v4, v5)
    }
}

/// A tuple of six members decodes them one after the other.
impl<'a, T1: Tags<'a>, T2: Tags<'a>, T3: Tags<'a>, T4: Tags<'a>, T5: Tags<'a>, T6: Tags<'a>> Tags<'a> for (T1, T2, T3, T4, T5, T6) {
    open spec fn width() -> nat {
        T1::width() + T2::width() + T3::width() + T4::width() + T5::width() + T6::width()
    }

    open spec fn decoded_from(&self, fields: Seq<Seq<u8>>) -> bool {
        &&& self.0.decoded_from(fields)
        &&& self.1.decoded_from(fields_after(fields, T1::width()))
        &&& self.2.decoded_from(fields_after(fields, T1::width() + T2::width()))
        &&& self.3.decoded_from(fields_after(fields, T1::width() + T2::width() + T3::width()))
        &&& self.4.decoded_from(fields_after(fields, T1::width() + T2::width() + T3::width() + T4::width()))
        &&& self.5.decoded_from(fields_after(fields, T1::width() + T2::width() + T3::width() + T4::width() + T5::width()))
    }

    fn from_tags(tags: &mut TagIterator<'a>) -> (r: Self) {
        let ghost before = tags@;
        let v1 = T1::from_tags(tags);
        let v2 = T2::from_tags(tags);
        proof {
            lemma_fields_after_twice(before, T1::width(), T2::width());
        }
        let v3 = T3::from_tags(tags);
        proof {
            lemma_fields_after_twice(before, T1::width() + T2::width(), T3::width());
        }
        let v4 = T4::from_tags(tags);
        proof {
            lemma_fields_after_twice(before, T1::width() + T2::width() + T3::width(), T4::width());
        }
        let v5 = T5::from_tags(tags);
        proof {
            lemma_fields_after_twice(before, T1::width() + T2::width() + T3::width() + T4::width(), T5::width());
        }
        let v6 = T6::from_tags(tags);
        proof {
            lemma_fields_after_twice(before, T1::width() + T2::width() + T3::width() + T4::width() + T5::width(), T6::width());
        }
        (v1, v2, v3, v4, v5, v6)
    }
}

/// A tuple of seven members decodes them one after the other.
impl<'a, T1: Tags<'a>, T2: Tags<'a>, T3: Tags<'a>, T4: Tags<'a>, T5: Tags<'a>, T6: Tags<'a>, T7: Tags<'a>> Tags<'a> for (T1, T2, T3, T4, T5, T6, T7) {
    open spec fn width() -> nat {
        T1::width() + T2::width() + T3::width() + T4::width() + T5::width() + T6::width() + T7::width()
    }

    open spec fn decoded_from(&self, fields: Seq<Seq<u8>>) -> bool {
        &&& self.0.decoded_from(fields)
        &&& self.1.decoded_from(fields_after(fields, T1::width()))
        &&& self.2.decoded_from(fields_after(fields, T1::width() + T2::width()))
        &&& self.3.decoded_from(fields_after(fields, T1::width() + T2::width() + T3::width()))
        &&& self.4.decoded_from(fields_after(fields, T1::width() + T2::width() + T3::width() + T4::width()))
        &&& self.5.decoded_from(fields_after(fields, T1::width() + T2::width() + T3::width() + T4::width() + T5::width()))
        &&& self.6.decoded_from(fields_after(fields, T1::width() + T2::width() + T3::width() + T4::width() + T5::width() + T6::width()))
    }

    fn from_tags(tags: &mut TagIterator<'a>) -> (r: Self) {
        let ghost before = tags@;
        let v1 = T1::from_tags(tags);
        let v2 = T2::from_tags(tags);
        proof {
            lemma_fields_after_twice(before, T1::width(), T2::width());
        }
        let v3 = T3::from_tags(tags);
        proof {
            lemma_fields_after_twice(before, T1::width() + T2::width(), T3::width());
        }
        let v4 = T4::from_tags(tags);
        proof {
            lemma_fields_after_twice(before, T1::width() + T2::width() + T3::width(), T4::width());
        }
        let v5 = T5::from_tags(tags);
        proof {
            lemma_fields_after_twice(before, T1::width() + T2::width() + T3::width() + T4::width(), T5::width());
        }
        let v6 = T6::from_tags(tags);
        proof {
            lemma_fields_after_twice(before, T1::width() + T2::width() + T3::width() + T4::width() + T5::width(), T6::width());
        }
        let v7 = T7::from_tags(tags);
        proof {
            lemma_fields_after_twice(before, T1::width() + T2::width() + T3::width() + T4::width() + T5::width() + T6::width(), T7::width());
        }
        (v1, v2, v3, v4, v5, v6, v7)
    }
}

/// A tuple of eight members decodes them one after the other.
impl<'a, T1: Tags<'a>, T2: Tags<'a>, T3: Tags<'a>, T4: Tags<'a>, T5: Tags<'a>, T6: Tags<'a>, T7: Tags<'a>, T8: Tags<'a>> Tags<'a> for (T1, T2, T3, T4, T5, T6, T7, T8) {
    open spec fn width() -> nat {
        T1::width() + T2::width() + T3::width() + T4::width() + T5::width() + T6::width() + T7::width() + T8::width()
    }

    open spec fn decoded_from(&self, fields: Seq<Seq<u8>>) -> bool {
        &&& self.0.decoded_from(fields)
        &&& self.1.decoded_from(fields_after(fields, T1::width()))
        &&& self.2.decoded_from(fields_after(fields, T1::width() + T2::width()))
        &&& self.3.decoded_from(fields_after(fields, T1::width() + T2::width() + T3::width()))
        &&& self.4.decoded_from(fields_after(fields, T1::width() + T2::width() + T3::width() + T4::width()))
        &&& self.5.decoded_from(fields_after(fields, T1::width() + T2::width() + T3::width() + T4::width() + T5::width()))
        &&& self.6.decoded_from(fields_after(fields, T1::width() + T2::width() + T3::width() + T4::width() + T5::width() + T6::width()))
        &&& self.7.decoded_from(fields_after(fields, T1::width() + T2::width() + T3::width() + T4::width() + T5::width() + T6::width() + T7::width()))
    }

    fn from_tags(tags: &mut TagIterator<'a>) -> (r: Self) {
        let ghost before = tags@;
        let v1 = T1::from_tags(tags);
        let v2 = T2::from_tags(tags);
        proof {
            lemma_fields_after_twice(before, T1::width(), T2::width());
        }
        let v3 = T3::from_tags(tags);
        proof {
            lemma_fields_after_twice(before, T1::width() + T2::width(), T3::width());
        }
        let v4 = T4::from_tags(tags);
        proof {
            lemma_fields_after_twice(before, T1::width() + T2::width() + T3::width(), T4::width());
        }
        let v5 = T5::from_tags(tags);
        proof {
            lemma_fields_after_twice(before, T1::width() + T2::width() + T3::width() + T4::width(), T5::width());
        }
        let v6 = T6::from_tags(tags);
        proof {
            lemma_fields_after_twice(before, T1::width() + T2::width() + T3::width() + T4::width() + T5::width(), T6::width());
        }
        let v7 = T7::from_tags(tags);
        proof {
            lemma_fields_after_twice(before, T1::width() + T2::width() + T3::width() + T4::width() + T5::width() + T6::width(), T7::width());
        }
        let v8 = T8::from_tags(tags);
        proof {
            lemma_fields_after_twice(before, T1::width() + T2::width() + T3::width() + T4::width() + T5::width() + T6::width() + T7::width(), T8::width());
        }
        (v1, v2, v3, v4, v5, v6, v7, v8)
    }
}

} // verus!
