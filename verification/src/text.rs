//! Cutting a string slice at byte offsets.
//!
//! Every delimiter of the wire format is an ASCII byte, so the offsets that
//! the scanners find always lie between two characters.

use vstd::prelude::*;
use vstd::string::*;
use vstd::utf8::*;

verus! {

/// In well-formed UTF-8 an ASCII byte is a character of its own: a
/// character starts at it and another one, or the end, follows it.
pub proof fn lemma_ascii_is_char(bytes: Seq<u8>, i: int)
    requires
        valid_utf8(bytes),
        0 <= i < bytes.len(),
        bytes[i] <= 0x7f,
    ensures
        is_char_boundary(bytes, i),
        is_char_boundary(bytes, i + 1),
{
    is_char_boundary_iff_not_is_continuation_byte(bytes, i);
    if i + 1 == bytes.len() {
        is_char_boundary_start_end_of_seq(bytes);
    } else {
        valid_utf8_split(bytes, i);
        let tail = bytes.subrange(i, bytes.len() as int);
        assert(tail[0] == bytes[i]);
        assert(length_of_first_scalar(tail) == 1);
        let rest = pop_first_scalar(tail);
        assert(valid_utf8(rest));
        assert(rest[0] == bytes[i + 1]);
        is_char_boundary_start_end_of_seq(rest);
        is_char_boundary_iff_not_is_continuation_byte(rest, 0);
        is_char_boundary_iff_not_is_continuation_byte(bytes, i + 1);
    }
}

/// The bytes of a string slice are well-formed UTF-8.
pub proof fn lemma_str_is_utf8(s: &str)
    ensures
        valid_utf8(s.spec_bytes()),
{
    encode_utf8_valid_utf8(s@);
}

/// The failure of reading bytes as text: they are no well-formed UTF-8.
#[derive(Debug, PartialEq, Eq, Clone, Copy)]
pub struct InvalidUtf8;

/// `core::str::from_utf8` of the standard library, which reads a slice of
/// bytes as a string slice without copying it. Its documentation says that
/// it fails exactly when the bytes are not UTF-8; the string slice that it
/// returns otherwise is the very bytes.
#[verifier::external_body]
fn str_from_utf8(bytes: &[u8]) -> (r: Option<&str>)
    ensures
        r.is_some() == valid_utf8(bytes@),
        match r {
            Some(s) => s.spec_bytes() == bytes@,
            None => true,
        },
{
    match core::str::from_utf8(bytes) {
        Ok(s) => Some(s),
        Err(_) => None,
    }
}

/// Reads `bytes` as text for the scanners. Bytes that are no well-formed
/// UTF-8 are turned down.
pub fn checked_text(bytes: &[u8]) -> (r: Result<&str, InvalidUtf8>)
    ensures
        r.is_ok() == valid_utf8(bytes@),
        match r {
            Ok(s) => s.spec_bytes() == bytes@,
            Err(e) => e == InvalidUtf8,
        },
{
    match str_from_utf8(bytes) {
        Some(s) => Ok(s),
        None => Err(InvalidUtf8),
    }
}

/// The part of `text` from byte `from` up to byte `to`.
pub fn substr<'a>(text: &'a str, from: usize, to: usize) -> (r: &'a str)
    requires
        from <= to <= text.spec_bytes().len(),
        is_char_boundary(text.spec_bytes(), from as int),
        is_char_boundary(text.spec_bytes(), to as int),
    ensures
        r.spec_bytes() == text.spec_bytes().subrange(from as int, to as int),
{
    let (head, _) = text.split_at(to);
    proof {
        let bytes = text.spec_bytes();
        lemma_str_is_utf8(text);
        lemma_str_is_utf8(head);
        if from < to {
            is_char_boundary_iff_not_is_continuation_byte(bytes, from as int);
            is_char_boundary_iff_not_is_continuation_byte(head.spec_bytes(), from as int);
        } else {
            is_char_boundary_start_end_of_seq(head.spec_bytes());
        }
    }
    let (_, r) = head.split_at(from);
    assert(r.spec_bytes() =~= text.spec_bytes().subrange(from as int, to as int));
    r
}

/// Whether two string slices hold the same text.
pub fn str_eq(a: &str, b: &str) -> (r: bool)
    ensures
        r == (a@ == b@),
{
    let x = a.as_bytes();
    let y = b.as_bytes();
    proof {
        encode_utf8_decode_utf8(a@);
        encode_utf8_decode_utf8(b@);
    }
    if x.len() != y.len() {
        return false;
    }
    let mut i: usize = 0;
    while i < x.len()
        invariant
            i <= x@.len() == y@.len(),
            forall|k: int| 0 <= k < i ==> x@[k] == y@[k],
            x@ == a.spec_bytes(),
            y@ == b.spec_bytes(),
            decode_utf8(encode_utf8(a@)) == a@,
            decode_utf8(encode_utf8(b@)) == b@,
        decreases x@.len() - i,
    {
        if x[i] != y[i] {
            return false;
        }
        i = i + 1;
    }
    assert(x@ =~= y@);
    true
}

} // verus!
