use puffin_requirements::whitespace::{char_is_whitespace, line_is_suppressed};

#[test]
fn whitespace_is_the_white_space_property() {
    for code in 0..=0x10FFFFu32 {
        if let Some(c) = char::from_u32(code) {
            assert_eq!(char_is_whitespace(c), c.is_whitespace(), "U+{:04X}", code);
        }
    }
}

#[test]
fn whitespace_characters() {
    for c in ['\t', '\n', '\u{b}', '\u{c}', '\r', ' ', '\u{85}', '\u{a0}', '\u{1680}', '\u{2000}',
        '\u{200a}', '\u{2028}', '\u{2029}', '\u{202f}', '\u{205f}', '\u{3000}'] {
        assert!(char_is_whitespace(c));
    }
    for c in ['\u{8}', '\u{e}', '\u{1f}', '!', '#', 'a', '\u{84}', '\u{86}', '\u{9f}', '\u{a1}',
        '\u{180e}', '\u{1fff}', '\u{200b}', '\u{2027}', '\u{202a}', '\u{2060}', '\u{2fff}',
        '\u{3001}', '\u{feff}', '\u{10ffff}'] {
        assert!(!char_is_whitespace(c));
    }
}

#[test]
fn blank_lines_are_suppressed() {
    assert!(line_is_suppressed(""));
    assert!(line_is_suppressed(" "));
    assert!(line_is_suppressed(" \t \u{a0}\u{3000}"));
}

#[test]
fn commented_lines_are_suppressed() {
    assert!(line_is_suppressed("#"));
    assert!(line_is_suppressed("# a comment"));
    assert!(line_is_suppressed("   # via"));
    assert!(line_is_suppressed("\t\u{2003}#x"));
    assert!(line_is_suppressed("#!"));
}

#[test]
fn other_lines_are_kept() {
    assert!(!line_is_suppressed("a"));
    assert!(!line_is_suppressed("a # b"));
    assert!(!line_is_suppressed("  a#"));
    assert!(!line_is_suppressed("\\"));
    assert!(!line_is_suppressed(" \u{200b}# zero width space is no whitespace"));
    assert!(!line_is_suppressed("--hash=x"));
}
