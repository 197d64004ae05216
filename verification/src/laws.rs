//! What holds of every manifest and every line: laws of trivia stripping
//! and of line splitting, stated over the functions that the contracts of
//! the library use.

use pep508_rs::{Pep508Error, Requirement};
use vstd::prelude::*;

use crate::lines::{
    chain_content, chain_span, first_kept, first_line, is_continued, lemma_chain_span,
    lemma_first_kept, lemma_line_span, line_span, logical_lines, suppressed,
};
use crate::requirements::{all_parsed, first_failure, requirement_texts};
use crate::scan::{
    break_width, lemma_first_of, lemma_first_of_unique, line_len, BACKSLASH, CARRIAGE_RETURN,
    LINE_FEED, NUMBER_SIGN,
};
use crate::trivia::{
    clean_span, comment_start, first_number_sign, first_occurrence, follows_whitespace,
    hash_marker, lemma_first_occurrence, occurs_at,
};

verus! {

/// The physical lines of `text`, without their line breaks.
pub open spec fn physical_lines(text: Seq<u8>) -> Seq<Seq<u8>>
    decreases text.len(),
    via physical_lines_decreases
{
    if text.len() == 0 {
        Seq::empty()
    } else {
        seq![first_line(text)] + physical_lines(text.skip(line_span(text)))
    }
}

#[via_fn]
proof fn physical_lines_decreases(text: Seq<u8>) {
    lemma_line_span(text);
}

/// True when `text` holds nothing but blank and fully commented lines.
pub open spec fn only_trivia(text: Seq<u8>) -> bool {
    forall|i: int|
        0 <= i < physical_lines(text).len() ==> suppressed(#[trigger] physical_lines(text)[i])
}

proof fn lemma_only_trivia_first_kept(text: Seq<u8>)
    requires
        only_trivia(text),
    ensures
        first_kept(text) == text.len(),
    decreases text.len(),
{
    if text.len() > 0 {
        lemma_line_span(text);
        let rest = text.skip(line_span(text));
        let lines = physical_lines(text);
        assert(lines[0] == first_line(text));
        assert forall|i: int| 0 <= i < physical_lines(rest).len() implies suppressed(
            #[trigger] physical_lines(rest)[i],
        ) by {
            assert(lines[i + 1] == physical_lines(rest)[i]);
        }
        lemma_only_trivia_first_kept(rest);
    }
}

/// A manifest of blank and fully commented lines has no logical line, so
/// that its requirements are the empty collection and no error.
pub proof fn law_only_trivia_yields_nothing(manifest: Seq<u8>)
    requires
        only_trivia(manifest),
    ensures
        logical_lines(manifest) == Seq::<Seq<u8>>::empty(),
        requirement_texts(manifest).len() == 0,
        forall|entries: Seq<Requirement>|
            all_parsed(requirement_texts(manifest), entries) ==> entries.len() == 0,
        forall|at: int, error: Pep508Error| !first_failure(requirement_texts(manifest), at, error),
{
    lemma_only_trivia_first_kept(manifest);
}

/// The clean span of a line is a length within the line.
pub proof fn law_clean_span_within_line(line: Seq<u8>)
    ensures
        0 <= clean_span(line) <= comment_start(line) <= line.len(),
{
    lemma_first_of(line, NUMBER_SIGN, NUMBER_SIGN);
    lemma_first_occurrence(line.take(comment_start(line)), hash_marker());
}

/// A line without `#` is cut at its first `--hash` and nowhere else: where
/// it holds no `--hash` either, its clean span is the whole line.
pub proof fn law_plain_line_is_clean(line: Seq<u8>)
    requires
        forall|i: int| 0 <= i < line.len() ==> line[i] != NUMBER_SIGN,
    ensures
        clean_span(line) == match first_occurrence(line, hash_marker()) {
            Some(at) => at,
            None => line.len() as int,
        },
{
    lemma_first_of_unique(line, NUMBER_SIGN, NUMBER_SIGN, line.len() as int);
    assert(line.take(line.len() as int) =~= line);
}

/// A manifest of one physical line that is neither blank nor fully
/// commented has that line as its only logical line.
pub proof fn law_single_line(line: Seq<u8>)
    requires
        forall|i: int| 0 <= i < line.len() ==> line[i] != LINE_FEED && line[i] != CARRIAGE_RETURN,
        !suppressed(line),
    ensures
        logical_lines(line) == seq![line],
{
    lemma_first_of_unique(line, LINE_FEED, CARRIAGE_RETURN, line.len() as int);
    assert(first_line(line) =~= line);
    assert(logical_lines(line.skip(line.len() as int)) =~= Seq::<Seq<u8>>::empty());
}

/// Where `needle` first occurs at `at`, it occurs nowhere in the first
/// `at` bytes.
proof fn lemma_none_before_first(hay: Seq<u8>, needle: Seq<u8>, at: int)
    requires
        needle.len() > 0,
        0 <= at <= hay.len(),
        forall|j: int| 0 <= j < at ==> !occurs_at(hay, needle, j),
    ensures
        first_occurrence(hay.take(at), needle) is None,
{
    let head = hay.take(at);
    lemma_first_occurrence(head, needle);
    if let Some(j) = first_occurrence(head, needle) {
        assert(occurs_at(hay, needle, j)) by {
            assert forall|k: int| 0 <= k < needle.len() implies #[trigger] hay[j + k]
                == needle[k] by {
                assert(head[j + k] == hay[j + k]);
            }
        }
    }
}

/// Stripping is idempotent: a line cut at its clean span is clean, its
/// clean span is its own length.
pub proof fn law_strip_is_idempotent(line: Seq<u8>)
    ensures
        clean_span(line.take(clean_span(line))) == clean_span(line),
        clean_span(line.take(clean_span(line))) == line.take(clean_span(line)).len(),
{
    law_clean_span_within_line(line);
    lemma_first_of(line, NUMBER_SIGN, NUMBER_SIGN);
    let limit = comment_start(line);
    let n = clean_span(line);
    let clean = line.take(n);
    let head = line.take(limit);
    let first = first_number_sign(line);
    // The comment of the clean line: it has none.
    lemma_first_of(clean, NUMBER_SIGN, NUMBER_SIGN);
    let again = first_number_sign(clean);
    if again < clean.len() {
        assert(first == again) by {
            if first < again {
                assert(clean[first] == line[first]);
            }
        }
        assert(clean.take(again) =~= line.take(first));
    }
    // The `--hash` of the clean line: it has none.
    lemma_first_occurrence(head, hash_marker());
    assert(clean =~= head.take(n));
    assert(clean.take(n) =~= clean);
    lemma_none_before_first(head, hash_marker(), n);
}

/// A `#` that no whitespace precedes starts no comment: the clean span of
/// a line never ends at such a `#`.
pub proof fn law_comment_needs_whitespace(line: Seq<u8>, at: int)
    requires
        0 <= at < line.len(),
        line[at] == NUMBER_SIGN,
        !follows_whitespace(line, at),
    ensures
        comment_start(line) != at,
        clean_span(line) != at,
{
    law_clean_span_within_line(line);
    let head = line.take(comment_start(line));
    lemma_first_occurrence(head, hash_marker());
    if let Some(cut) = first_occurrence(head, hash_marker()) {
        assert(head[cut + 0] == hash_marker()[0]);
    }
}

/// `--hash` cuts the line wherever it stands: the clean span of a line
/// lies at or before every occurrence of `--hash` in it, and at the first
/// one where the line has no comment.
pub proof fn law_hash_cuts_at_first(line: Seq<u8>, at: int)
    requires
        occurs_at(line, hash_marker(), at),
    ensures
        clean_span(line) <= at,
        comment_start(line) == line.len() ==> first_occurrence(line, hash_marker()) == Some(
            clean_span(line),
        ),
{
    law_clean_span_within_line(line);
    lemma_first_of(line, NUMBER_SIGN, NUMBER_SIGN);
    let limit = comment_start(line);
    let head = line.take(limit);
    let marker = hash_marker();
    lemma_first_occurrence(head, marker);
    if at + marker.len() <= limit {
        assert(occurs_at(head, marker, at));
    } else if at < limit {
        assert(line[at + (limit - at)] == marker[limit - at]);
    }
    if limit == line.len() {
        assert(head =~= line);
    }
}

/// The text in which each of `parts` is a physical line that ends in a
/// line feed, and each but the last is continued by a backslash.
pub open spec fn continued(parts: Seq<Seq<u8>>) -> Seq<u8>
    decreases parts.len(),
{
    if parts.len() == 0 {
        Seq::empty()
    } else if parts.len() == 1 {
        parts[0] + seq![LINE_FEED]
    } else {
        parts[0] + seq![BACKSLASH, LINE_FEED] + continued(parts.drop_first())
    }
}

/// True when `part` can stand as the content of one physical line: it
/// holds no line break.
pub open spec fn is_one_line(part: Seq<u8>) -> bool {
    forall|i: int| 0 <= i < part.len() ==> part[i] != LINE_FEED && part[i] != CARRIAGE_RETURN
}

/// A chain of continued lines is joined in full: its content is the
/// content of its physical lines in order, without the backslashes and
/// the line breaks, and it ends behind the line break of the last.
pub proof fn law_chain_joins_its_lines(parts: Seq<Seq<u8>>, rest: Seq<u8>)
    requires
        parts.len() > 0,
        forall|i: int| 0 <= i < parts.len() ==> is_one_line(#[trigger] parts[i]),
        parts.last().len() > 0 ==> parts.last().last() != BACKSLASH,
    ensures
        chain_content(continued(parts) + rest) == parts.flatten(),
        chain_span(continued(parts) + rest) == continued(parts).len(),
    decreases parts.len(),
{
    let text = continued(parts) + rest;
    let first = parts[0];
    if parts.len() == 1 {
        lemma_first_of_unique(text, LINE_FEED, CARRIAGE_RETURN, first.len() as int);
        parts.lemma_flatten_one_element();
    } else {
        let tail = parts.drop_first();
        let n = first.len() as int + 1;
        lemma_first_of_unique(text, LINE_FEED, CARRIAGE_RETURN, n);
        assert(text.skip(n + 1) =~= continued(tail) + rest);
        assert forall|i: int| 0 <= i < tail.len() implies is_one_line(#[trigger] tail[i]) by {}
        law_chain_joins_its_lines(tail, rest);
    }
}

/// A chain of continued lines whose first line is neither blank nor fully
/// commented is exactly one logical line: the one that joins its physical
/// lines. The logical lines of what follows the chain come after it.
pub proof fn law_chain_is_one_logical_line(parts: Seq<Seq<u8>>, rest: Seq<u8>)
    requires
        parts.len() > 0,
        forall|i: int| 0 <= i < parts.len() ==> is_one_line(#[trigger] parts[i]),
        parts.last().len() > 0 ==> parts.last().last() != BACKSLASH,
        !suppressed(first_line(continued(parts) + rest)),
    ensures
        logical_lines(continued(parts) + rest) == seq![parts.flatten()] + logical_lines(rest),
{
    let text = continued(parts) + rest;
    law_chain_joins_its_lines(parts, rest);
    assert(text.skip(0) =~= text);
    assert(text.skip(continued(parts).len() as int) =~= rest);
}

/// `text` with every line break, of whatever kind, written as one line
/// feed.
pub open spec fn with_line_feeds(text: Seq<u8>) -> Seq<u8>
    decreases text.len(),
{
    if text.len() == 0 {
        Seq::empty()
    } else if text[0] == CARRIAGE_RETURN && text.len() > 1 && text[1] == LINE_FEED {
        seq![LINE_FEED] + with_line_feeds(text.skip(2))
    } else if text[0] == CARRIAGE_RETURN {
        seq![LINE_FEED] + with_line_feeds(text.skip(1))
    } else {
        seq![text[0]] + with_line_feeds(text.skip(1))
    }
}

/// A text with its line breaks rewritten is its first physical line, a
/// line feed where that line has a line break, and what follows it with
/// its line breaks rewritten.
proof fn lemma_with_line_feeds_unfold(text: Seq<u8>)
    ensures
        with_line_feeds(text) == first_line(text) + if line_len(text) < text.len() {
            seq![LINE_FEED] + with_line_feeds(text.skip(line_span(text)))
        } else {
            Seq::<u8>::empty()
        },
    decreases text.len(),
{
    let changed = with_line_feeds(text);
    lemma_line_span(text);
    if text.len() == 0 {
    } else if text[0] == LINE_FEED || text[0] == CARRIAGE_RETURN {
        assert(changed =~= first_line(text) + (seq![LINE_FEED] + with_line_feeds(
            text.skip(line_span(text)),
        )));
    } else {
        let rest = text.skip(1);
        lemma_with_line_feeds_unfold(rest);
        lemma_line_span(rest);
        if line_len(text) < text.len() {
            assert(text.skip(line_span(text)) =~= rest.skip(line_span(rest)));
            assert(changed =~= first_line(text) + (seq![LINE_FEED] + with_line_feeds(
                text.skip(line_span(text)),
            )));
        }
    }
}

/// Rewriting the line breaks leaves the first physical line as it is and
/// rewrites what follows it.
proof fn lemma_with_line_feeds_first_line(text: Seq<u8>)
    ensures
        line_len(with_line_feeds(text)) == line_len(text),
        first_line(with_line_feeds(text)) == first_line(text),
        is_continued(with_line_feeds(text)) == is_continued(text),
        with_line_feeds(text).len() == 0 <==> text.len() == 0,
        with_line_feeds(text).skip(line_span(with_line_feeds(text))) == with_line_feeds(
            text.skip(line_span(text)),
        ),
{
    lemma_with_line_feeds_unfold(text);
    lemma_line_span(text);
    lemma_first_of(text, LINE_FEED, CARRIAGE_RETURN);
    lemma_first_of_unique(with_line_feeds(text), LINE_FEED, CARRIAGE_RETURN, line_len(text));
}

/// Rewriting the line breaks leaves the first chain of continued lines as
/// it is and rewrites what follows it.
proof fn lemma_with_line_feeds_chain(text: Seq<u8>)
    ensures
        chain_content(with_line_feeds(text)) == chain_content(text),
        with_line_feeds(text).skip(chain_span(with_line_feeds(text))) == with_line_feeds(
            text.skip(chain_span(text)),
        ),
    decreases text.len(),
{
    let changed = with_line_feeds(text);
    lemma_with_line_feeds_first_line(text);
    lemma_line_span(text);
    lemma_line_span(changed);
    if is_continued(text) {
        let rest = text.skip(line_span(text));
        let changed_rest = changed.skip(line_span(changed));
        lemma_with_line_feeds_chain(rest);
        lemma_chain_span(rest);
        lemma_chain_span(changed_rest);
        assert(changed.take(line_len(changed) - 1) =~= first_line(changed).take(
            line_len(changed) - 1,
        ));
        assert(text.skip(chain_span(text)) =~= rest.skip(chain_span(rest)));
    }
}

/// Rewriting the line breaks keeps the first line that is kept.
proof fn lemma_with_line_feeds_first_kept(text: Seq<u8>)
    ensures
        with_line_feeds(text).skip(first_kept(with_line_feeds(text))) == with_line_feeds(
            text.skip(first_kept(text)),
        ),
    decreases text.len(),
{
    let changed = with_line_feeds(text);
    lemma_with_line_feeds_first_line(text);
    lemma_line_span(text);
    lemma_line_span(changed);
    if text.len() > 0 && suppressed(first_line(text)) {
        let rest = text.skip(line_span(text));
        let changed_rest = changed.skip(line_span(changed));
        lemma_with_line_feeds_first_kept(rest);
        lemma_first_kept(rest);
        lemma_first_kept(changed_rest);
        assert(text.skip(first_kept(text)) =~= rest.skip(first_kept(rest)));
    } else {
        assert(text.skip(0) =~= text);
    }
}

/// The kind of its line breaks does not change what a manifest says: it
/// has the logical lines of the same manifest with a line feed for every
/// line break.
pub proof fn law_line_breaks_are_alike(text: Seq<u8>)
    ensures
        logical_lines(with_line_feeds(text)) == logical_lines(text),
        requirement_texts(with_line_feeds(text)) == requirement_texts(text),
    decreases text.len(),
{
    let changed = with_line_feeds(text);
    lemma_first_kept(text);
    lemma_first_kept(changed);
    lemma_with_line_feeds_first_kept(text);
    let here = text.skip(first_kept(text));
    lemma_with_line_feeds_first_line(here);
    if first_kept(text) < text.len() {
        lemma_chain_span(here);
        lemma_with_line_feeds_chain(here);
        law_line_breaks_are_alike(here.skip(chain_span(here)));
    }
}

} // verus!
