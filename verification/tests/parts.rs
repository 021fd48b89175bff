use sort_gitignore::blocks::parse_blocks;
use sort_gitignore::lines::{ends_with_newline, join_with_newlines, split_lines};
use sort_gitignore::patterns::{group_key_of, lex_le_chars, sort_block_patterns};
use sort_gitignore::text::{
    ascii_lower_char, chars_of, is_blank_chars, is_comment_chars, is_whitespace_char,
    sort_key_chars, trim_bounds,
};

fn chars(s: &str) -> Vec<char> {
    s.chars().collect()
}

fn strings(v: &[&str]) -> Vec<String> {
    v.iter().map(|s| s.to_string()).collect()
}

#[test]
fn splits_like_str_lines() {
    for s in ["", "\n", "a", "a\n", "a\r\nb\r\n\r\n", "a\rb\r", "\n\nx", "x\r\r\n"] {
        let expected: Vec<String> = s.lines().map(|l| l.to_string()).collect();
        assert_eq!(split_lines(s), expected, "input {:?}", s);
    }
}

#[test]
fn joins_with_line_feeds() {
    assert_eq!(join_with_newlines(&strings(&[])), "");
    assert_eq!(join_with_newlines(&strings(&["a"])), "a");
    assert_eq!(join_with_newlines(&strings(&["a", "", "b"])), "a\n\nb");
}

#[test]
fn final_line_feed_detected() {
    assert!(ends_with_newline("a\n"));
    assert!(!ends_with_newline("a\r"));
    assert!(!ends_with_newline(""));
}

#[test]
fn whitespace_is_unicode_white_space() {
    for c in ['\t', '\n', '\u{b}', '\u{c}', '\r', ' ', '\u{85}', '\u{a0}', '\u{1680}', '\u{2000}', '\u{200a}', '\u{2028}', '\u{2029}', '\u{202f}', '\u{205f}', '\u{3000}'] {
        assert!(is_whitespace_char(c), "{:?}", c);
        assert_eq!(is_whitespace_char(c), c.is_whitespace());
    }
    for c in ['a', '\u{200b}', '\u{feff}', '\u{180e}', '#'] {
        assert_eq!(is_whitespace_char(c), c.is_whitespace(), "{:?}", c);
    }
}

#[test]
fn trims_like_str_trim() {
    for s in ["", "  ", " a b \t", "\u{3000}x\u{a0}", "x"] {
        let c = chars(s);
        let (a, b) = trim_bounds(&c);
        let t: String = c[a..b].iter().collect();
        assert_eq!(t, s.trim(), "input {:?}", s);
    }
}

#[test]
fn classifies_lines() {
    assert!(is_comment_chars(&chars("  # x")));
    assert!(!is_comment_chars(&chars("a # x")));
    assert!(!is_comment_chars(&chars("   ")));
    assert!(is_blank_chars(&chars(" \t ")));
    assert!(is_blank_chars(&chars("")));
    assert!(!is_blank_chars(&chars(" #")));
}

#[test]
fn sort_keys() {
    let key = |s: &str| -> String { sort_key_chars(&chars(s)).into_iter().collect() };
    assert_eq!(key("  !!Foo/Bar "), "foo/bar");
    assert_eq!(key("! x"), " x");
    assert_eq!(key("ÄB"), "Äb");
    assert_eq!(ascii_lower_char('Q'), 'q');
    assert_eq!(ascii_lower_char('@'), '@');
    assert_eq!(ascii_lower_char('['), '[');
}

#[test]
fn orders_by_code_point() {
    assert!(lex_le_chars(&chars(""), &chars("a")));
    assert!(lex_le_chars(&chars("ab"), &chars("ab")));
    assert!(lex_le_chars(&chars("ab"), &chars("abc")));
    assert!(!lex_le_chars(&chars("abc"), &chars("ab")));
    assert!(lex_le_chars(&chars("Z"), &chars("a")));
    assert!(!lex_le_chars(&chars("é"), &chars("z")));
}

#[test]
fn group_keys() {
    let key = |v: &[&str]| -> String { group_key_of(&strings(v)).into_iter().collect() };
    assert_eq!(key(&["# c", "  !Apple"]), "apple");
    assert_eq!(key(&["# c", "# d"]), "");
    assert_eq!(key(&[]), "");
}

#[test]
fn sorts_patterns_of_a_section() {
    assert_eq!(
        sort_block_patterns(strings(&["b", "# on a", "a", "# last"])),
        strings(&["# last", "# on a", "a", "b"])
    );
}

#[test]
fn parses_sections() {
    let lines = strings(&["# head", "b", "a", "", "# alone", "", "", "z", "# tail"]);
    let blocks = parse_blocks(&lines);
    assert_eq!(blocks.len(), 3);
    assert_eq!(blocks[0].header_comments, strings(&["# head"]));
    assert_eq!(blocks[0].patterns, strings(&["b", "a"]));
    assert_eq!(blocks[0].trailing_blanks, strings(&[""]));
    assert!(blocks[1].header_comments.is_empty());
    assert_eq!(blocks[1].patterns, strings(&["# alone"]));
    assert_eq!(blocks[1].trailing_blanks, strings(&["", ""]));
    assert!(blocks[2].header_comments.is_empty());
    assert_eq!(blocks[2].patterns, strings(&["z", "# tail"]));
    assert!(blocks[2].trailing_blanks.is_empty());
}

#[test]
fn section_may_start_with_blank_lines() {
    let blocks = parse_blocks(&strings(&["", "a"]));
    assert_eq!(blocks.len(), 2);
    assert!(blocks[0].patterns.is_empty());
    assert_eq!(blocks[0].trailing_blanks, strings(&[""]));
    assert_eq!(blocks[1].patterns, strings(&["a"]));
}

#[test]
fn chars_of_keeps_every_char() {
    assert_eq!(chars_of("aé\u{1f600}"), vec!['a', 'é', '\u{1f600}']);
}
