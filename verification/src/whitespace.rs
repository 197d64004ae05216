//! The Unicode `White_Space` property and the two classes of lines that
//! carry no requirement: blank lines and fully commented lines.

use vstd::prelude::*;
use vstd::std_specs::iter::IteratorSpec;

verus! {

broadcast use vstd::string::group_string_axioms;

/// True when `c` has the Unicode `White_Space` property.
pub open spec fn is_whitespace(c: char) -> bool {
    let u = c as u32;
    ||| 0x09 <= u <= 0x0D
    ||| u == 0x20
    ||| u == 0x85
    ||| u == 0xA0
    ||| u == 0x1680
    ||| 0x2000 <= u <= 0x200A
    ||| u == 0x2028
    ||| u == 0x2029
    ||| u == 0x202F
    ||| u == 0x205F
    ||| u == 0x3000
}

/// True when every character of `line` is whitespace; the empty line is
/// blank.
pub open spec fn is_blank(line: Seq<char>) -> bool {
    forall|i: int| 0 <= i < line.len() ==> is_whitespace(#[trigger] line[i])
}

/// True when the first character of `line` that is not whitespace is `#`.
pub open spec fn is_comment(line: Seq<char>) -> bool {
    exists|i: int| 0 <= i < line.len() && #[trigger] line[i] == '#' && is_blank(line.take(i))
}

/// True when `line` yields no requirement: it is blank or fully commented.
pub open spec fn is_suppressed(line: Seq<char>) -> bool {
    is_comment(line) || is_blank(line)
}

/// Decides whether `c` is a whitespace character.
pub fn char_is_whitespace(c: char) -> (r: bool)
    ensures
        r == is_whitespace(c),
{
    let u: u32 = c as u32;
    (0x09 <= u && u <= 0x0D) || u == 0x20 || u == 0x85 || u == 0xA0 || u == 0x1680 || (0x2000 <= u
        && u <= 0x200A) || u == 0x2028 || u == 0x2029 || u == 0x202F || u == 0x205F || u == 0x3000
}

/// Decides whether `line` is blank or fully commented, by looking at its
/// first character that is not whitespace.
pub fn line_is_suppressed(line: &str) -> (r: bool)
    ensures
        r == is_suppressed(line@),
{
    let mut chars = line.chars();
    let ghost mut seen: int = 0;
    loop
        invariant
            0 <= seen <= line@.len(),
            chars.remaining() == line@.skip(seen),
            is_blank(line@.take(seen)),
        decreases line@.len() - seen,
    {
        match chars.next() {
            None => {
                assert(line@.take(seen) =~= line@);
                return true;
            },
            Some(c) => {
                if !char_is_whitespace(c) {
                    proof {
                        if c != '#' {
                            assert forall|i: int|
                                0 <= i < line@.len() && #[trigger] line@[i] == '#' implies !is_blank(
                                line@.take(i),
                            ) by {
                                if i < seen {
                                    assert(line@.take(seen)[i] == line@[i]);
                                } else {
                                    assert(line@.take(i)[seen] == c);
                                }
                            }
                        }
                    }
                    return c == '#';
                }
                proof {
                    seen = seen + 1;
                }
            },
        }
    }
}

/// The last character of `text`, if it has one.
pub(crate) fn last_char(text: &str) -> (r: Option<char>)
    ensures
        r == if text@.len() > 0 {
            Some(text@.last())
        } else {
            None
        },
{
    let mut chars = text.chars();
    let mut last: Option<char> = None;
    let ghost mut seen: int = 0;
    loop
        invariant
            0 <= seen <= text@.len(),
            chars.remaining() == text@.skip(seen),
            last == if seen > 0 {
                Some(text@[seen - 1])
            } else {
                None
            },
        decreases text@.len() - seen,
    {
        match chars.next() {
            None => {
                return last;
            },
            Some(c) => {
                last = Some(c);
                proof {
                    seen = seen + 1;
                }
            },
        }
    }
}

} // verus!
