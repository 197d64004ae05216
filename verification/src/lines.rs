//! Splitting a manifest into logical lines: physical lines are told apart by
//! their line breaks, blank and fully commented lines are dropped, and lines
//! that end in a backslash are joined with the lines that follow them.

use std::borrow::Cow;
use vstd::prelude::*;
use vstd::string::{StringExecFns, StringSliceAdditionalSpecFns};
use vstd::utf8::*;

use crate::scan::{
    break_width, find_newline, lemma_first_of, line_len, BACKSLASH, CARRIAGE_RETURN, LINE_FEED,
};
use crate::text::{
    lemma_ascii_byte_boundaries, lemma_boundary_in_range, lemma_encode_concat, prefix, suffix,
};
use crate::trivia::RequirementLine;
use crate::whitespace::{is_suppressed, line_is_suppressed};

verus! {

broadcast use vstd::utf8::group_utf8_lib;

/// The first physical line of `text`, without its line break.
pub open spec fn first_line(text: Seq<u8>) -> Seq<u8> {
    text.take(line_len(text))
}

/// Number of bytes that the first physical line of `text` takes, its line
/// break included. The last line of a text may have no line break.
pub open spec fn line_span(text: Seq<u8>) -> int {
    let n = line_len(text);
    if n < text.len() {
        n + break_width(text, n)
    } else {
        n
    }
}

/// True when the first physical line of `text` goes on in the next one: it
/// has a line break, and a backslash stands directly before it.
pub open spec fn is_continued(text: Seq<u8>) -> bool {
    let n = line_len(text);
    0 < n < text.len() && text[n - 1] == BACKSLASH
}

/// True when a physical line yields no logical line: it is blank or fully
/// commented.
pub open spec fn suppressed(line: Seq<u8>) -> bool {
    is_suppressed(decode_utf8(line))
}

/// A physical line and its line break lie within the text, and a text that
/// is not empty has a first line that takes at least one byte.
pub proof fn lemma_line_span(text: Seq<u8>)
    ensures
        0 <= line_len(text) <= line_span(text) <= text.len(),
        text.len() > 0 ==> line_span(text) > 0,
        line_span(text) == line_len(text) <==> line_len(text) == text.len(),
        line_len(text) < text.len() ==> text[line_len(text)] == LINE_FEED || text[line_len(text)]
            == CARRIAGE_RETURN,
{
    lemma_first_of(text, LINE_FEED, CARRIAGE_RETURN);
}

/// The content of the chain of continued lines that starts `text`: each
/// physical line up to the first that is not continued, the backslashes
/// that join them and the line breaks left out. A line that is not
/// continued is a chain of its own.
pub open spec fn chain_content(text: Seq<u8>) -> Seq<u8>
    decreases text.len(),
    via chain_content_decreases
{
    if is_continued(text) {
        text.take(line_len(text) - 1) + chain_content(text.skip(line_span(text)))
    } else {
        first_line(text)
    }
}

#[via_fn]
proof fn chain_content_decreases(text: Seq<u8>) {
    lemma_line_span(text);
}

/// Number of bytes that the chain of continued lines that starts `text`
/// takes, line breaks included.
pub open spec fn chain_span(text: Seq<u8>) -> int
    decreases text.len(),
    via chain_span_decreases
{
    if is_continued(text) {
        line_span(text) + chain_span(text.skip(line_span(text)))
    } else {
        line_span(text)
    }
}

#[via_fn]
proof fn chain_span_decreases(text: Seq<u8>) {
    lemma_line_span(text);
}

/// A chain lies within the text, and takes at least one byte of a text
/// that is not empty.
pub proof fn lemma_chain_span(text: Seq<u8>)
    ensures
        0 <= chain_span(text) <= text.len(),
        text.len() > 0 ==> chain_span(text) > 0,
    decreases text.len(),
{
    lemma_line_span(text);
    if is_continued(text) {
        lemma_chain_span(text.skip(line_span(text)));
    }
}

/// Offset of the first physical line of `text` that is not suppressed, or
/// `text.len()` when every line is.
pub open spec fn first_kept(text: Seq<u8>) -> int
    decreases text.len(),
    via first_kept_decreases
{
    if text.len() > 0 && suppressed(first_line(text)) {
        line_span(text) + first_kept(text.skip(line_span(text)))
    } else {
        0
    }
}

#[via_fn]
proof fn first_kept_decreases(text: Seq<u8>) {
    lemma_line_span(text);
}

/// The first line that is kept starts within the text.
pub proof fn lemma_first_kept(text: Seq<u8>)
    ensures
        0 <= first_kept(text) <= text.len(),
    decreases text.len(),
{
    lemma_line_span(text);
    if text.len() > 0 && suppressed(first_line(text)) {
        lemma_first_kept(text.skip(line_span(text)));
    }
}

/// The logical lines of `text`, in order: from the first physical line
/// that is not suppressed, a chain of continued lines; then the logical
/// lines of what follows that chain.
pub open spec fn logical_lines(text: Seq<u8>) -> Seq<Seq<u8>>
    decreases text.len(),
    via logical_lines_decreases
{
    let start = first_kept(text);
    if start < text.len() {
        let here = text.skip(start);
        seq![chain_content(here)] + logical_lines(here.skip(chain_span(here)))
    } else {
        Seq::empty()
    }
}

#[via_fn]
proof fn logical_lines_decreases(text: Seq<u8>) {
    lemma_first_kept(text);
    lemma_chain_span(text.skip(first_kept(text)));
}

/// Reads the physical line that starts at byte offset `at`: returns the
/// line without its line break, and the offset behind the line break.
fn physical_line<'a>(text: &'a str, at: usize) -> (r: (&'a str, usize))
    requires
        is_char_boundary(text.spec_bytes(), at as int),
    ensures
        r.0.spec_bytes() == first_line(text.spec_bytes().skip(at as int)),
        r.1 == at + line_span(text.spec_bytes().skip(at as int)),
        at <= r.1 <= text.spec_bytes().len(),
        is_char_boundary(text.spec_bytes(), r.1 as int),
{
    let ghost bytes = text.spec_bytes();
    let ghost here = bytes.skip(at as int);
    proof {
        lemma_boundary_in_range(bytes, at as int);
        lemma_line_span(here);
    }
    let total = text.as_bytes().len();
    let rest = suffix(text, at);
    match find_newline(rest) {
        None => {
            proof {
                is_char_boundary_start_end_of_seq(bytes);
            }
            (rest, total)
        },
        Some((start, width)) => {
            proof {
                lemma_ascii_byte_boundaries(here, start as int);
                lemma_ascii_byte_boundaries(bytes, at + start);
                if width == 2 {
                    lemma_ascii_byte_boundaries(bytes, at + start + 1);
                }
            }
            (prefix(rest, start), at + (start + width))
        },
    }
}

/// True when the physical line `line`, which takes `span` bytes with its
/// line break, ends in a backslash directly before that line break.
fn ends_in_continuation(line: &str, span: usize) -> (r: bool)
    ensures
        r == (0 < line.spec_bytes().len() < span && line.spec_bytes().last() == BACKSLASH),
{
    let bytes = line.as_bytes();
    let n = bytes.len();
    0 < n && n < span && bytes[n - 1] == BACKSLASH
}

/// Joins the rest of a chain of continued lines to `first`, the content
/// of the lines of the chain that stand before byte offset `from`. Returns
/// the joined line and the offset behind the chain.
fn join_chain(text: &str, from: usize, first: &str) -> (r: (String, usize))
    requires
        is_char_boundary(text.spec_bytes(), from as int),
    ensures
        encode_utf8(r.0@) == first.spec_bytes() + chain_content(
            text.spec_bytes().skip(from as int),
        ),
        r.1 == from + chain_span(text.spec_bytes().skip(from as int)),
        from <= r.1 <= text.spec_bytes().len(),
        is_char_boundary(text.spec_bytes(), r.1 as int),
{
    let ghost bytes = text.spec_bytes();
    let ghost whole = first.spec_bytes() + chain_content(bytes.skip(from as int));
    let mut joined = first.to_owned();
    let mut index = from;
    proof {
        lemma_boundary_in_range(bytes, from as int);
    }
    loop
        invariant_except_break
            encode_utf8(joined@) + chain_content(bytes.skip(index as int)) == whole,
            (index - from) + chain_span(bytes.skip(index as int)) == chain_span(
                bytes.skip(from as int),
            ),
        invariant
            bytes == text.spec_bytes(),
            from <= index <= bytes.len(),
            is_char_boundary(bytes, index as int),
        ensures
            encode_utf8(joined@) == whole,
            index - from == chain_span(bytes.skip(from as int)),
        decreases bytes.len() - index,
    {
        let ghost here = bytes.skip(index as int);
        let ghost before = joined@;
        let (line, after) = physical_line(text, index);
        proof {
            lemma_line_span(here);
            assert(here.skip(line_span(here)) =~= bytes.skip(after as int));
        }
        if ends_in_continuation(line, after - index) {
            let n = line.as_bytes().len();
            proof {
                lemma_ascii_byte_boundaries(line.spec_bytes(), n - 1);
            }
            let piece = prefix(line, n - 1);
            joined.append(piece);
            proof {
                lemma_encode_concat(before, piece@);
                assert(encode_utf8(joined@) + chain_content(bytes.skip(after as int))
                    =~= encode_utf8(before) + chain_content(here));
            }
            index = after;
        } else {
            joined.append(line);
            proof {
                lemma_encode_concat(before, line@);
            }
            index = after;
            break ;
        }
    }
    (joined, index)
}

/// A cursor over a manifest that hands out its logical lines one by one.
#[derive(Debug)]
pub struct RequirementsIterator<'a> {
    text: &'a str,
    index: usize,
}

impl<'a> RequirementsIterator<'a> {
    #[verifier::type_invariant]
    spec fn well_formed(self) -> bool {
        is_char_boundary(self.text.spec_bytes(), self.index as int)
    }

    /// The UTF-8 bytes of the manifest.
    pub closed spec fn text(&self) -> Seq<u8> {
        self.text.spec_bytes()
    }

    /// Byte offset of the cursor.
    pub closed spec fn position(&self) -> int {
        self.index as int
    }

    /// The part of the manifest that the cursor has not passed.
    pub open spec fn rest(&self) -> Seq<u8> {
        self.text().skip(self.position())
    }

    /// The logical lines that are still to come.
    pub open spec fn remaining(&self) -> Seq<Seq<u8>> {
        logical_lines(self.rest())
    }

    /// A cursor at the start of `text`.
    pub fn new(text: &'a str) -> (r: Self)
        ensures
            r.text() == text.spec_bytes(),
            r.position() == 0,
    {
        RequirementsIterator { text, index: 0 }
    }

    /// Hands out the next logical line and moves the cursor behind it, or
    /// returns `None` and moves the cursor to the end when no line is left.
    pub fn next(&mut self) -> (r: Option<RequirementLine<'a>>)
        ensures
            final(self).text() == old(self).text(),
            old(self).position() <= final(self).position() <= old(self).text().len(),
            match r {
                Some(line) => {
                    let start = first_kept(old(self).rest());
                    let here = old(self).rest().skip(start);
                    &&& start < old(self).rest().len()
                    &&& line.spec_bytes() == chain_content(here)
                    &&& line.is_borrowed() == !is_continued(here)
                    &&& final(self).position() == old(self).position() + start + chain_span(here)
                    &&& old(self).remaining() == seq![line.spec_bytes()] + final(self).remaining()
                },
                None => {
                    &&& first_kept(old(self).rest()) == old(self).rest().len()
                    &&& final(self).position() == old(self).text().len()
                    &&& old(self).remaining() == Seq::<Seq<u8>>::empty()
                },
            },
    {
        proof {
            use_type_invariant(&*self);
        }
        let text: &'a str = self.text;
        let total = text.as_bytes().len();
        let ghost bytes = text.spec_bytes();
        let ghost origin = self.index as int;
        proof {
            lemma_boundary_in_range(bytes, origin);
            lemma_first_kept(bytes.skip(origin));
        }
        loop
            invariant
                self.text == text,
                old(self).text == text,
                bytes == text.spec_bytes(),
                total == bytes.len(),
                origin == old(self).index,
                origin <= self.index <= total,
                is_char_boundary(bytes, self.index as int),
                self.index + first_kept(bytes.skip(self.index as int)) == origin + first_kept(
                    bytes.skip(origin),
                ),
            decreases total - self.index,
        {
            if self.index == total {
                return None;
            }
            let ghost at = self.index as int;
            let ghost here = bytes.skip(at);
            let start = self.index;
            let (line, after) = physical_line(text, start);
            proof {
                lemma_line_span(here);
                assert(here.skip(line_span(here)) =~= bytes.skip(after as int));
            }
            if line_is_suppressed(line) {
                self.index = after;
                continue ;
            }
            proof {
                assert(bytes.skip(origin).skip(at - origin) =~= here);
                lemma_chain_span(here);
            }
            if ends_in_continuation(line, after - start) {
                let n = line.as_bytes().len();
                proof {
                    lemma_ascii_byte_boundaries(line.spec_bytes(), n - 1);
                }
                let head = prefix(line, n - 1);
                let (joined, end) = join_chain(text, after, head);
                self.index = end;
                proof {
                    assert(encode_utf8(joined@) == chain_content(here));
                    assert(here.skip(chain_span(here)) =~= bytes.skip(end as int));
                }
                return Some(RequirementLine::from_line(Cow::Owned(joined)));
            } else {
                self.index = after;
                return Some(RequirementLine::from_line(Cow::Borrowed(line)));
            }
        }
    }
}

} // verus!
