use rereader::wrap::{wrap_paragraph, wrap_text, wrapped_line_count};

#[test]
fn wrap_fills_lines_greedily() {
    assert_eq!(wrap_text("hello world foo", 11), vec!["hello world", "foo"]);
    assert_eq!(wrap_paragraph("hello world foo", 10), vec!["hello", "world foo"]);
}

#[test]
fn wrap_keeps_empty_paragraphs_as_empty_lines() {
    assert_eq!(wrap_text("a\n\nb", 10), vec!["a", "", "b"]);
    assert_eq!(wrap_text("", 10), vec![""]);
    assert_eq!(wrap_text("a\n", 10), vec!["a", ""]);
}

#[test]
fn wrap_of_blank_paragraph_has_no_lines() {
    assert_eq!(wrap_text("   ", 5), Vec::<String>::new());
    assert_eq!(wrap_paragraph(" \t ", 5), Vec::<String>::new());
}

#[test]
fn wrap_width_is_at_least_one() {
    assert_eq!(wrap_text("ab", 0), vec!["a", "b"]);
}

#[test]
fn wrap_breaks_words_wider_than_the_line() {
    assert_eq!(wrap_text("abcdefgh", 3), vec!["abc", "def", "gh"]);
    assert_eq!(wrap_text("xy abcdefgh", 3), vec!["xy", "abc", "def", "gh"]);
}

#[test]
fn wrap_counts_display_width_of_wide_characters() {
    assert_eq!(wrap_text("日本語", 4), vec!["日本", "語"]);
    assert_eq!(wrap_text("日本 語", 5), vec!["日本", "語"]);
    assert_eq!(wrap_text("日本 語", 7), vec!["日本 語"]);
}

#[test]
fn wrap_collapses_spaces_between_words() {
    assert_eq!(wrap_text("a    b\t\tc", 80), vec!["a b c"]);
}

#[test]
fn wrapped_line_count_matches_lines() {
    let t = "one two three four five six\n\nseven";
    assert_eq!(wrapped_line_count(t, 9), wrap_text(t, 9).len());
    assert_eq!(wrap_text(t, 9), vec!["one two", "three", "four five", "six", "", "seven"]);
}

#[test]
fn wrap_loses_no_visible_character() {
    let t = "The  quick\tbrown fox jumps over the lazydogwithaverylongname";
    let lines = wrap_paragraph(t, 8);
    let visible: String = lines.concat().chars().filter(|c| !c.is_whitespace()).collect();
    let expected: String = t.chars().filter(|c| !c.is_whitespace()).collect();
    assert_eq!(visible, expected);
    for l in &lines {
        assert!(l.chars().count() <= 8);
    }
}

#[test]
fn wrap_text_loses_no_visible_character_across_paragraphs() {
    let t = "first paragraph here\n\n  second\tone with averyveryverylongword\n";
    let lines = wrap_text(t, 6);
    let visible: String = lines.concat().chars().filter(|c| !c.is_whitespace()).collect();
    let expected: String = t.chars().filter(|c| !c.is_whitespace()).collect();
    assert_eq!(visible, expected);
    assert_eq!(
        lines,
        vec!["first", "paragraph".chars().take(6).collect::<String>().as_str(), "aph", "here", "", "second", "one", "with", "averyv", "eryver", "ylongw", "ord", ""]
    );
}

#[test]
fn wrap_over_a_newline_is_wrapping_each_side() {
    let (a, b) = ("hello world foo", "x  yz abcdefgh");
    for w in [0usize, 1, 3, 5, 11] {
        let joined = wrap_text(&format!("{a}\n{b}"), w);
        assert_eq!(joined, [wrap_text(a, w), wrap_text(b, w)].concat());
        assert_eq!(wrap_text(a, 0), wrap_text(a, 1));
        assert_eq!(wrap_text(a, w), wrap_paragraph(a, w.max(1)));
    }
    assert_eq!(wrap_text("", 4), vec![String::new()]);
}
