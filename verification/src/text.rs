//! Byte offsets into UTF-8 text.
//!
//! A manifest is a `&str`; every position the scanner computes is a byte
//! offset into its UTF-8 encoding. This module proves that the offsets the
//! scanner cuts at are character boundaries and provides the slicing
//! operations built on that.

use vstd::prelude::*;
use vstd::string::StringSliceAdditionalSpecFns;
use vstd::utf8::*;

verus! {

broadcast use vstd::utf8::group_utf8_lib;

/// True when `b` encodes an ASCII character on its own.
pub open spec fn is_ascii_byte(b: u8) -> bool {
    b < 0x80
}

/// In valid UTF-8 an ASCII byte is a whole character: the text can be cut
/// on either side of it.
pub proof fn lemma_ascii_byte_boundaries(bytes: Seq<u8>, i: int)
    requires
        valid_utf8(bytes),
        0 <= i < bytes.len(),
        is_ascii_byte(bytes[i]),
    ensures
        is_char_boundary(bytes, i),
        is_char_boundary(bytes, i + 1),
{
    is_char_boundary_iff_not_is_continuation_byte(bytes, i);
    valid_utf8_split(bytes, i);
    let tail = bytes.skip(i);
    assert(valid_first_scalar(tail) && valid_utf8(pop_first_scalar(tail)));
    if i + 1 == bytes.len() {
        is_char_boundary_start_end_of_seq(bytes);
    } else {
        is_char_boundary_iff_not_is_continuation_byte(bytes, i + 1);
    }
}

/// A valid text cut at two character boundaries yields a valid text.
pub proof fn lemma_valid_between(bytes: Seq<u8>, from: int, to: int)
    requires
        valid_utf8(bytes),
        is_char_boundary(bytes, from),
        is_char_boundary(bytes, to),
        from <= to,
    ensures
        0 <= from <= to <= bytes.len(),
        valid_utf8(bytes.subrange(from, to)),
        valid_utf8(bytes.take(to)),
        valid_utf8(bytes.skip(from)),
        is_char_boundary(bytes.take(to), from),
{
    lemma_boundary_in_range(bytes, from);
    lemma_boundary_in_range(bytes, to);
    valid_utf8_split(bytes, to);
    valid_utf8_split(bytes, from);
    let head = bytes.take(to);
    if from == to {
        is_char_boundary_start_end_of_seq(head);
    } else if from > 0 {
        is_char_boundary_iff_not_is_continuation_byte(bytes, from);
        is_char_boundary_iff_not_is_continuation_byte(head, from);
    }
    valid_utf8_split(head, from);
    assert(head.skip(from) =~= bytes.subrange(from, to));
}

/// A character boundary lies within the text.
pub proof fn lemma_boundary_in_range(bytes: Seq<u8>, at: int)
    requires
        valid_utf8(bytes),
        is_char_boundary(bytes, at),
    ensures
        0 <= at <= bytes.len(),
{
}

/// Encoding distributes over concatenation.
pub proof fn lemma_encode_concat(a: Seq<char>, b: Seq<char>)
    ensures
        encode_utf8(a + b) == encode_utf8(a) + encode_utf8(b),
    decreases a.len(),
{
    if a.len() > 0 {
        lemma_encode_concat(a.drop_first(), b);
        assert((a + b).drop_first() =~= a.drop_first() + b);
    }
}

/// The part of `text` before byte offset `end`.
pub(crate) fn prefix<'a>(text: &'a str, end: usize) -> (r: &'a str)
    requires
        is_char_boundary(text.spec_bytes(), end as int),
    ensures
        r.spec_bytes() == text.spec_bytes().take(end as int),
{
    let (head, _) = text.split_at(end);
    head
}

/// The part of `text` from byte offset `start` on.
pub(crate) fn suffix<'a>(text: &'a str, start: usize) -> (r: &'a str)
    requires
        is_char_boundary(text.spec_bytes(), start as int),
    ensures
        r.spec_bytes() == text.spec_bytes().skip(start as int),
{
    let (_, tail) = text.split_at(start);
    tail
}

} // verus!
