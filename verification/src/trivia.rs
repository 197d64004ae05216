//! Trivia stripping: where the requirement of a logical line ends and its
//! trailing comment or `--hash` extras begin.

use std::borrow::Cow;
use vstd::prelude::*;
use vstd::slice::slice_subrange;
use vstd::string::StringSliceAdditionalSpecFns;
use vstd::utf8::*;

use crate::scan::{first_of, lemma_first_of, lemma_first_of_unique, NUMBER_SIGN};
use crate::text::{
    lemma_ascii_byte_boundaries, lemma_boundary_in_range, lemma_valid_between, prefix, suffix,
};
use crate::whitespace::{char_is_whitespace, is_whitespace, last_char};

verus! {

broadcast use vstd::utf8::group_utf8_lib;

pub const HYPHEN: u8 = 0x2D;

pub const LETTER_A: u8 = 0x61;

pub const LETTER_H: u8 = 0x68;

pub const LETTER_S: u8 = 0x73;

/// The bytes of `--hash`.
pub open spec fn hash_marker() -> Seq<u8> {
    seq![HYPHEN, HYPHEN, LETTER_H, LETTER_A, LETTER_S, LETTER_H]
}

/// True when `needle` stands in `hay` at offset `at`.
pub open spec fn occurs_at(hay: Seq<u8>, needle: Seq<u8>, at: int) -> bool {
    &&& 0 <= at
    &&& at + needle.len() <= hay.len()
    &&& forall|k: int| 0 <= k < needle.len() ==> #[trigger] hay[at + k] == needle[k]
}

/// Offset of the first occurrence of `needle` in `hay`.
pub open spec fn first_occurrence(hay: Seq<u8>, needle: Seq<u8>) -> Option<int>
    decreases hay.len(),
{
    if occurs_at(hay, needle, 0) {
        Some(0)
    } else if hay.len() == 0 {
        None
    } else {
        match first_occurrence(hay.drop_first(), needle) {
            Some(at) => Some(at + 1),
            None => None,
        }
    }
}

/// True when `at` is an offset at which `needle` occurs in `hay` and no
/// smaller offset is.
pub open spec fn is_first_occurrence(hay: Seq<u8>, needle: Seq<u8>, at: int) -> bool {
    &&& occurs_at(hay, needle, at)
    &&& forall|j: int| 0 <= j < at ==> !occurs_at(hay, needle, j)
}

proof fn lemma_occurs_shift(hay: Seq<u8>, needle: Seq<u8>, at: int)
    requires
        hay.len() > 0,
        0 <= at,
    ensures
        occurs_at(hay.drop_first(), needle, at) == occurs_at(hay, needle, at + 1),
{
    let rest = hay.drop_first();
    if occurs_at(rest, needle, at) {
        assert forall|k: int| 0 <= k < needle.len() implies #[trigger] hay[at + 1 + k]
            == needle[k] by {
            assert(rest[at + k] == hay[at + 1 + k]);
        }
    }
    if occurs_at(hay, needle, at + 1) {
        assert forall|k: int| 0 <= k < needle.len() implies #[trigger] rest[at + k]
            == needle[k] by {
            assert(rest[at + k] == hay[at + 1 + k]);
        }
    }
}

/// `first_occurrence` is the least offset at which `needle` occurs, and is
/// `None` exactly when it occurs nowhere.
pub proof fn lemma_first_occurrence(hay: Seq<u8>, needle: Seq<u8>)
    ensures
        match first_occurrence(hay, needle) {
            Some(at) => is_first_occurrence(hay, needle, at),
            None => forall|j: int| !occurs_at(hay, needle, j),
        },
    decreases hay.len(),
{
    if occurs_at(hay, needle, 0) {
    } else if hay.len() == 0 {
        assert forall|j: int| !occurs_at(hay, needle, j) by {}
    } else {
        let rest = hay.drop_first();
        lemma_first_occurrence(rest, needle);
        match first_occurrence(rest, needle) {
            Some(at) => {
                lemma_occurs_shift(hay, needle, at);
                assert forall|j: int| 0 <= j < at + 1 implies !occurs_at(hay, needle, j) by {
                    if j > 0 {
                        lemma_occurs_shift(hay, needle, j - 1);
                    }
                }
            },
            None => {
                assert forall|j: int| !occurs_at(hay, needle, j) by {
                    if j > 0 {
                        lemma_occurs_shift(hay, needle, j - 1);
                    }
                }
            },
        }
    }
}

/// The least offset at which `needle` occurs is `first_occurrence`.
pub proof fn lemma_first_occurrence_unique(hay: Seq<u8>, needle: Seq<u8>, at: int)
    requires
        is_first_occurrence(hay, needle, at),
    ensures
        first_occurrence(hay, needle) == Some(at),
{
    lemma_first_occurrence(hay, needle);
}

/// True when the character that ends at byte offset `at` of `line` is
/// whitespace. At offset zero there is no such character.
pub open spec fn follows_whitespace(line: Seq<u8>, at: int) -> bool {
    at > 0 && is_whitespace(decode_utf8(line.take(at)).last())
}

/// Offset of the first `#` of `line`, or its length when it has none.
pub open spec fn first_number_sign(line: Seq<u8>) -> int {
    first_of(line, NUMBER_SIGN, NUMBER_SIGN)
}

/// Offset at which the comment of `line` starts: that of its first `#`
/// where whitespace precedes it, else the length of the line. No later `#`
/// is considered.
pub open spec fn comment_start(line: Seq<u8>) -> int {
    let at = first_number_sign(line);
    if at < line.len() && follows_whitespace(line, at) {
        at
    } else {
        line.len() as int
    }
}

/// Length of the requirement in `line`: the line without its comment, cut
/// at the first `--hash` in what is left.
pub open spec fn clean_span(line: Seq<u8>) -> int {
    let limit = comment_start(line);
    match first_occurrence(line.take(limit), hash_marker()) {
        Some(at) => at,
        None => limit,
    }
}

/// The clean span of a valid text lies within it, on a character boundary.
pub proof fn lemma_clean_span_boundary(line: Seq<u8>)
    requires
        valid_utf8(line),
    ensures
        0 <= clean_span(line) <= line.len(),
        is_char_boundary(line, clean_span(line)),
{
    lemma_first_of(line, NUMBER_SIGN, NUMBER_SIGN);
    let limit = comment_start(line);
    if limit < line.len() {
        lemma_ascii_byte_boundaries(line, limit);
    } else {
        is_char_boundary_start_end_of_seq(line);
    }
    lemma_first_occurrence(line.take(limit), hash_marker());
    match first_occurrence(line.take(limit), hash_marker()) {
        Some(at) => {
            assert(line.take(limit)[at + 0] == hash_marker()[0]);
            lemma_ascii_byte_boundaries(line, at);
        },
        None => {},
    }
}

/// Decides whether the character that ends at byte offset `at` is
/// whitespace.
fn preceded_by_whitespace(line: &str, at: usize) -> (r: bool)
    requires
        is_char_boundary(line.spec_bytes(), at as int),
    ensures
        r == follows_whitespace(line.spec_bytes(), at as int),
{
    if at == 0 {
        return false;
    }
    let bytes = line.as_bytes();
    proof {
        lemma_boundary_in_range(bytes@, at as int);
    }
    let mut start: usize = at - 1;
    while start > 0 && 0x80 <= bytes[start] && bytes[start] < 0xC0
        invariant
            start < at <= bytes@.len(),
        decreases start,
    {
        start = start - 1;
    }
    proof {
        if start > 0 {
            is_char_boundary_iff_not_is_continuation_byte(bytes@, start as int);
        }
        lemma_valid_between(bytes@, start as int, at as int);
        decode_utf8_split(bytes@.take(at as int), start as int);
        assert(bytes@.take(at as int).skip(start as int) =~= bytes@.subrange(
            start as int,
            at as int,
        ));
    }
    let before = suffix(prefix(line, at), start);
    match last_char(before) {
        Some(c) => char_is_whitespace(c),
        None => false,
    }
}

/// True when `--hash` stands in `bytes` at offset `at`.
fn marker_at(bytes: &[u8], at: usize) -> (r: bool)
    requires
        at + 6 <= bytes@.len(),
    ensures
        r == occurs_at(bytes@, hash_marker(), at as int),
{
    let r = bytes[at] == HYPHEN && bytes[at + 1] == HYPHEN && bytes[at + 2] == LETTER_H && bytes[at
        + 3] == LETTER_A && bytes[at + 4] == LETTER_S && bytes[at + 5] == LETTER_H;
    proof {
        let m = hash_marker();
        if r {
            assert forall|k: int| 0 <= k < m.len() implies #[trigger] bytes@[at + k] == m[k] by {}
        } else {
            assert(bytes@[at + 0] == bytes@[at as int]);
        }
    }
    r
}

/// Finds the first `--hash` among the first `limit` bytes.
fn find_hash_marker(bytes: &[u8], limit: usize) -> (found: Option<usize>)
    requires
        limit <= bytes@.len(),
    ensures
        match found {
            Some(at) => first_occurrence(bytes@.take(limit as int), hash_marker()) == Some(
                at as int,
            ),
            None => first_occurrence(bytes@.take(limit as int), hash_marker()) is None,
        },
{
    let ghost hay = bytes@.take(limit as int);
    let head = slice_subrange(bytes, 0, limit);
    if limit < 6 {
        proof {
            lemma_first_occurrence(hay, hash_marker());
        }
        return None;
    }
    let mut at: usize = 0;
    while at <= limit - 6
        invariant
            6 <= limit <= bytes@.len(),
            hay == bytes@.take(limit as int),
            head@ == hay,
            hay.len() == limit,
            forall|j: int| 0 <= j < at ==> !occurs_at(hay, hash_marker(), j),
        decreases limit - at,
    {
        if marker_at(head, at) {
            proof {
                lemma_first_occurrence_unique(hay, hash_marker(), at as int);
            }
            return Some(at);
        }
        at = at + 1;
    }
    proof {
        lemma_first_occurrence(hay, hash_marker());
    }
    None
}

/// A logical line of a manifest together with the length of the requirement
/// in it.
#[derive(Debug)]
pub struct RequirementLine<'a> {
    /// The line as it stands in the manifest, comments and `--hash` extras
    /// included.
    line: Cow<'a, str>,
    /// Length in bytes of the line without its trivia.
    len: usize,
}

impl<'a> RequirementLine<'a> {
    #[verifier::type_invariant]
    spec fn well_formed(self) -> bool {
        self.len == clean_span(encode_utf8(self.line@))
    }

    /// The UTF-8 bytes of the whole line.
    pub closed spec fn spec_bytes(&self) -> Seq<u8> {
        encode_utf8(self.line@)
    }

    /// True when the line is a view into the manifest, false when it owns
    /// a buffer of its own.
    pub closed spec fn is_borrowed(&self) -> bool {
        self.line is Borrowed
    }

    /// Strips the trivia of a logical line: returns the length in bytes of
    /// the requirement itself, without the comment and the `--hash`
    /// extras.
    pub fn strip_trivia(requirement: &str) -> (len: usize)
        ensures
            len == clean_span(requirement.spec_bytes()),
            len <= requirement.spec_bytes().len(),
            is_char_boundary(requirement.spec_bytes(), len as int),
    {
        let bytes = requirement.as_bytes();
        let mut len = bytes.len();
        proof {
            lemma_clean_span_boundary(bytes@);
        }

        // Strip the comment.
        if let Some(position) = memchr::memchr(NUMBER_SIGN, bytes) {
            proof {
                lemma_first_of_unique(bytes@, NUMBER_SIGN, NUMBER_SIGN, position as int);
                lemma_ascii_byte_boundaries(bytes@, position as int);
            }
            if preceded_by_whitespace(requirement, position) {
                len = position;
            }
        } else {
            proof {
                lemma_first_of_unique(bytes@, NUMBER_SIGN, NUMBER_SIGN, bytes@.len() as int);
            }
        }

        // Strip the `--hash` extras.
        if let Some(index) = find_hash_marker(bytes, len) {
            len = index;
        }
        len
    }

    /// Wraps a logical line and measures the requirement in it.
    pub fn from_line(line: Cow<'a, str>) -> (r: Self)
        ensures
            r.spec_bytes() == encode_utf8(line@),
            r.is_borrowed() == (line is Borrowed),
    {
        let len = match &line {
            Cow::Borrowed(text) => Self::strip_trivia(text),
            Cow::Owned(text) => Self::strip_trivia(text.as_str()),
        };
        RequirementLine { line, len }
    }

    /// The whole line, trivia included.
    pub fn line(&self) -> (r: &str)
        ensures
            r.spec_bytes() == self.spec_bytes(),
    {
        match &self.line {
            Cow::Borrowed(text) => text,
            Cow::Owned(text) => text.as_str(),
        }
    }

    /// The requirement of the line: the line up to its clean span, with
    /// whatever whitespace stood before the trivia.
    pub fn as_str(&self) -> (r: &str)
        ensures
            r.spec_bytes() == self.spec_bytes().take(clean_span(self.spec_bytes())),
    {
        let text = self.line();
        proof {
            use_type_invariant(self);
            lemma_clean_span_boundary(text.spec_bytes());
        }
        prefix(text, self.len)
    }
}

} // verus!
