use rereader::text::{collapse_blanks, from_chars, is_whitespace, join_with_space, split_chars, split_words, to_chars, trim_chars};

fn s(v: &[char]) -> String {
    v.iter().collect()
}

fn collapse(t: &str) -> String {
    s(&collapse_blanks(&to_chars(t)))
}

#[test]
fn collapse_keeps_one_blank_line_between_paragraphs() {
    assert_eq!(collapse("  a  \n\n\n b\n  \n"), "a\n\nb");
}

#[test]
fn collapse_trims_carriage_returns_and_edges() {
    assert_eq!(collapse("\r\n\r\nx\r\n"), "x");
    assert_eq!(collapse(""), "");
    assert_eq!(collapse(" \n\t\n "), "");
}

#[test]
fn collapse_trims_each_line() {
    assert_eq!(collapse("  one  \n\ttwo\t\n"), "one\ntwo");
}

#[test]
fn collapse_never_leaves_two_blank_lines() {
    let out = collapse("a\n\n\n\n\nb\n\n\n\nc");
    assert_eq!(out, "a\n\nb\n\nc");
    assert!(!out.contains("\n\n\n"));
}

#[test]
fn whitespace_is_unicode_white_space() {
    for c in [' ', '\t', '\n', '\r', '\u{b}', '\u{c}', '\u{85}', '\u{a0}', '\u{2003}', '\u{3000}'] {
        assert!(is_whitespace(c));
        assert_eq!(is_whitespace(c), c.is_whitespace());
    }
    for c in ['a', '-', '\u{200b}', '\u{2500}'] {
        assert!(!is_whitespace(c));
        assert_eq!(is_whitespace(c), c.is_whitespace());
    }
}

#[test]
fn trim_removes_surrounding_whitespace_only() {
    assert_eq!(s(&trim_chars(&to_chars("\u{a0} a b \n"))), "a b");
    assert_eq!(s(&trim_chars(&to_chars("   "))), "");
}

#[test]
fn split_keeps_empty_pieces() {
    let pieces: Vec<String> = split_chars(&to_chars("a\n\nb\n"), '\n').iter().map(|p| s(p)).collect();
    assert_eq!(pieces, vec!["a", "", "b", ""]);
}

#[test]
fn words_are_runs_of_non_whitespace() {
    let ws: Vec<String> = split_words(&to_chars("  one\ttwo \n three  ")).iter().map(|p| s(p)).collect();
    assert_eq!(ws, vec!["one", "two", "three"]);
    assert_eq!(s(&join_with_space(&split_words(&to_chars("  one\ttwo \n three  ")))), "one two three");
}

#[test]
fn chars_round_trip() {
    let t = "héllo — 日本";
    assert_eq!(from_chars(&to_chars(t)), t);
}

#[test]
fn collapsing_twice_is_collapsing_once() {
    for t in ["  a  \n\n\n b\n  \n", "\r\n\r\nx\r\n", "a\n\n\n\n\nb\n\n\n\nc", " \n\t\n ", "one\n \ntwo\n\n"] {
        let once = collapse(t);
        assert_eq!(collapse(&once), once);
    }
}
