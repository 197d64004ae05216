//! Searching the bytes of a manifest: single bytes, line breaks and the
//! `--hash` marker.

use vstd::prelude::*;
use vstd::string::StringSliceAdditionalSpecFns;

verus! {

pub const LINE_FEED: u8 = 0x0A;

pub const CARRIAGE_RETURN: u8 = 0x0D;

pub const NUMBER_SIGN: u8 = 0x23;

pub const BACKSLASH: u8 = 0x5C;

/// Index of the first element of `s` that equals `a` or `b`, or `s.len()`
/// when there is none.
pub open spec fn first_of(s: Seq<u8>, a: u8, b: u8) -> int
    decreases s.len(),
{
    if s.len() == 0 || s[0] == a || s[0] == b {
        0
    } else {
        1 + first_of(s.drop_first(), a, b)
    }
}

/// `first_of` stays within the sequence, nothing before it matches, and
/// the element at it does.
pub proof fn lemma_first_of(s: Seq<u8>, a: u8, b: u8)
    ensures
        0 <= first_of(s, a, b) <= s.len(),
        forall|j: int| 0 <= j < first_of(s, a, b) ==> s[j] != a && s[j] != b,
        first_of(s, a, b) < s.len() ==> s[first_of(s, a, b)] == a || s[first_of(s, a, b)] == b,
    decreases s.len(),
{
    if !(s.len() == 0 || s[0] == a || s[0] == b) {
        let rest = s.drop_first();
        lemma_first_of(rest, a, b);
        assert forall|j: int| 0 <= j < first_of(s, a, b) implies s[j] != a && s[j] != b by {
            if j > 0 {
                assert(s[j] == rest[j - 1]);
            }
        }
    }
}

/// `first_of` is the only index of which `lemma_first_of` holds.
pub proof fn lemma_first_of_unique(s: Seq<u8>, a: u8, b: u8, at: int)
    requires
        0 <= at <= s.len(),
        forall|j: int| 0 <= j < at ==> s[j] != a && s[j] != b,
        at < s.len() ==> s[at] == a || s[at] == b,
    ensures
        first_of(s, a, b) == at,
{
    lemma_first_of(s, a, b);
}

/// `memchr::memchr`: the index of the first byte of `haystack` that equals
/// `needle`, or `None` when no byte does.
pub assume_specification[ memchr::memchr ](needle: u8, haystack: &[u8]) -> (found: Option<usize>)
    ensures
        match found {
            Some(i) => i < haystack@.len() && haystack@[i as int] == needle && forall|j: int|
                0 <= j < i ==> haystack@[j] != needle,
            None => forall|j: int| 0 <= j < haystack@.len() ==> haystack@[j] != needle,
        },
;

/// `memchr::memchr2`: the index of the first byte of `haystack` that equals
/// `needle1` or `needle2`, or `None` when no byte does.
pub assume_specification[ memchr::memchr2 ](needle1: u8, needle2: u8, haystack: &[u8]) -> (found:
    Option<usize>)
    ensures
        match found {
            Some(i) => i < haystack@.len() && (haystack@[i as int] == needle1 || haystack@[i as int]
                == needle2) && forall|j: int|
                0 <= j < i ==> haystack@[j] != needle1 && haystack@[j] != needle2,
            None => forall|j: int|
                0 <= j < haystack@.len() ==> haystack@[j] != needle1 && haystack@[j] != needle2,
        },
;

/// Length of the first physical line of `text`: the offset of its first
/// line-break byte, or `text.len()` when it has none.
pub open spec fn line_len(text: Seq<u8>) -> int {
    first_of(text, LINE_FEED, CARRIAGE_RETURN)
}

/// Number of bytes taken by a line break that starts at offset `at`: two
/// for a carriage return directly followed by a line feed, else one.
pub open spec fn break_width(text: Seq<u8>, at: int) -> int {
    if text[at] == CARRIAGE_RETURN && at + 1 < text.len() && text[at + 1] == LINE_FEED {
        2
    } else {
        1
    }
}

/// Finds the first line break of `text`: its offset and its width in bytes.
pub fn find_newline(text: &str) -> (found: Option<(usize, usize)>)
    ensures
        match found {
            Some((start, width)) => start == line_len(text.spec_bytes()) && start
                < text.spec_bytes().len() && width == break_width(text.spec_bytes(), start as int),
            None => line_len(text.spec_bytes()) == text.spec_bytes().len(),
        },
{
    let bytes = text.as_bytes();
    match memchr::memchr2(LINE_FEED, CARRIAGE_RETURN, bytes) {
        None => {
            proof {
                lemma_first_of_unique(bytes@, LINE_FEED, CARRIAGE_RETURN, bytes@.len() as int);
            }
            None
        },
        Some(position) => {
            proof {
                lemma_first_of_unique(bytes@, LINE_FEED, CARRIAGE_RETURN, position as int);
            }
            if bytes[position] == CARRIAGE_RETURN && position + 1 < bytes.len() && bytes[position
                + 1] == LINE_FEED {
                Some((position, 2))
            } else {
                Some((position, 1))
            }
        },
    }
}

} // verus!
