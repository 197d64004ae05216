use std::borrow::Cow;

use puffin_requirements::{find_newline, RequirementLine};

fn clean(line: &str) -> &str {
    &line[..RequirementLine::strip_trivia(line)]
}

#[test]
fn plain_line_is_clean() {
    assert_eq!(RequirementLine::strip_trivia("flask==2.0"), 10);
    assert_eq!(RequirementLine::strip_trivia(""), 0);
    assert_eq!(RequirementLine::strip_trivia("   "), 3);
    assert_eq!(clean("requests [security,tests] >= 2.8.1 ; python_version > \"3.8\""),
        "requests [security,tests] >= 2.8.1 ; python_version > \"3.8\"");
}

#[test]
fn comment_is_stripped_and_whitespace_kept() {
    assert_eq!(clean("pkg==1.0  # a comment"), "pkg==1.0  ");
    assert_eq!(RequirementLine::strip_trivia("pkg==1.0  # a comment"), 10);
    assert_eq!(clean("pkg\t#x"), "pkg\t");
}

#[test]
fn comment_needs_whitespace_before_it() {
    assert_eq!(clean("pkg @ https://example.com/x#fragment"), "pkg @ https://example.com/x#fragment");
    assert_eq!(clean("pkg#comment"), "pkg#comment");
}

#[test]
fn number_sign_at_the_start_is_no_comment() {
    assert_eq!(clean("#"), "#");
    assert_eq!(clean("#x # y"), "#x # y");
}

#[test]
fn only_the_first_number_sign_counts() {
    assert_eq!(clean("a#b # c"), "a#b # c");
    assert_eq!(clean("a # b # c"), "a ");
    assert_eq!(clean("pkg @ https://example.com/x#fragment # note"),
        "pkg @ https://example.com/x#fragment # note");
}

#[test]
fn whitespace_beyond_ascii_starts_a_comment() {
    assert_eq!(clean("pkg\u{a0}# c"), "pkg\u{a0}");
    assert_eq!(clean("pkg\u{85}# c"), "pkg\u{85}");
    assert_eq!(clean("pkg\u{1680}# c"), "pkg\u{1680}");
    assert_eq!(clean("pkg\u{2003}# c"), "pkg\u{2003}");
    assert_eq!(clean("pkg\u{2028}# c"), "pkg\u{2028}");
    assert_eq!(clean("pkg\u{202f}# c"), "pkg\u{202f}");
    assert_eq!(clean("pkg\u{205f}# c"), "pkg\u{205f}");
    assert_eq!(clean("pkg\u{3000}# c"), "pkg\u{3000}");
    assert_eq!(RequirementLine::strip_trivia("pkg\u{3000}# c"), 6);
}

#[test]
fn other_characters_beyond_ascii_start_no_comment() {
    assert_eq!(clean("caf\u{e9}# c"), "caf\u{e9}# c");
    assert_eq!(clean("pkg\u{200b}# c"), "pkg\u{200b}# c");
    assert_eq!(clean("pkg\u{180e}# c"), "pkg\u{180e}# c");
    assert_eq!(clean("\u{65e5}\u{672c}# c"), "\u{65e5}\u{672c}# c");
    assert_eq!(clean("\u{1f600}# c"), "\u{1f600}# c");
    assert_eq!(clean("\u{1f600}\u{a0}# c"), "\u{1f600}\u{a0}");
}

#[test]
fn hash_is_stripped_at_its_first_occurrence() {
    assert_eq!(clean("pkg==1.0     --hash=sha256:abc"), "pkg==1.0     ");
    assert_eq!(clean("a --hash=x --hash=y"), "a ");
    assert_eq!(clean("--hash"), "");
    assert_eq!(RequirementLine::strip_trivia("a--hash"), 1);
}

#[test]
fn hash_is_found_whatever_surrounds_it() {
    assert_eq!(clean("pkg--hashes"), "pkg");
    assert_eq!(clean("pkg @ https://example.com/a--hash/b"), "pkg @ https://example.com/a");
    assert_eq!(clean("x ; extra == '--hash'"), "x ; extra == '");
    assert_eq!(clean("a---hash"), "a-");
}

#[test]
fn near_misses_of_hash_are_kept() {
    assert_eq!(clean("a --has"), "a --has");
    assert_eq!(clean("a -hash --Hash --hasH - -hash"), "a -hash --Hash --hasH - -hash");
    assert_eq!(clean("--has"), "--has");
    assert_eq!(clean("-hash"), "-hash");
}

#[test]
fn hash_behind_a_comment_is_not_looked_at() {
    assert_eq!(clean("pkg # --hash"), "pkg ");
    assert_eq!(clean("pkg --hash=x # c"), "pkg ");
    assert_eq!(clean("a#b --hash=x # c"), "a#b ");
}

#[test]
fn stripping_a_clean_line_changes_nothing() {
    for line in [
        "pkg==1.0  # a comment",
        "pkg==1.0     --hash=sha256:abc",
        "a#b --hash=x # c",
        "a # b # c",
        "pkg\u{3000}# c",
        "--hash",
        "",
        "plain",
    ] {
        let once = clean(line);
        assert_eq!(RequirementLine::strip_trivia(once), once.len());
        assert_eq!(clean(once), once);
    }
}

#[test]
fn requirement_line_of_a_borrowed_line() {
    let line = RequirementLine::from_line(Cow::Borrowed("pkg==1.0  # a comment"));
    assert_eq!(line.line(), "pkg==1.0  # a comment");
    assert_eq!(line.as_str(), "pkg==1.0  ");
}

#[test]
fn requirement_line_of_an_owned_line() {
    let line = RequirementLine::from_line(Cow::Owned(String::from("pkg==1.0     --hash=sha256:abc")));
    assert_eq!(line.line(), "pkg==1.0     --hash=sha256:abc");
    assert_eq!(line.as_str(), "pkg==1.0     ");
}

#[test]
fn requirement_line_without_trivia() {
    let line = RequirementLine::from_line(Cow::Borrowed("flask==2.0"));
    assert_eq!(line.as_str(), "flask==2.0");
    let empty = RequirementLine::from_line(Cow::Borrowed(""));
    assert_eq!(empty.as_str(), "");
}

#[test]
fn newline_is_found_with_its_width() {
    assert_eq!(find_newline("ab\ncd"), Some((2, 1)));
    assert_eq!(find_newline("ab\r\ncd"), Some((2, 2)));
    assert_eq!(find_newline("ab\rcd"), Some((2, 1)));
    assert_eq!(find_newline("\n"), Some((0, 1)));
    assert_eq!(find_newline("\r"), Some((0, 1)));
    assert_eq!(find_newline("\r\n"), Some((0, 2)));
    assert_eq!(find_newline("ab\r"), Some((2, 1)));
}

#[test]
fn newline_is_the_first_of_either_kind() {
    assert_eq!(find_newline("a\rb\nc"), Some((1, 1)));
    assert_eq!(find_newline("a\nb\rc"), Some((1, 1)));
    assert_eq!(find_newline("a\n\rc"), Some((1, 1)));
    assert_eq!(find_newline("a\r\r\nc"), Some((1, 1)));
    assert_eq!(find_newline("\u{65e5}\u{672c}\r\n"), Some((6, 2)));
}

#[test]
fn newline_is_missing() {
    assert_eq!(find_newline(""), None);
    assert_eq!(find_newline("abc"), None);
    assert_eq!(find_newline("a\u{85}b\u{2028}c\u{b}d\u{c}"), None);
}
