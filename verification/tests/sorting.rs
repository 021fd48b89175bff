use sort_gitignore::gitignore::sort_git_ignore;

#[test]
fn test_sort_simple_patterns() {
    let input = "vendor/\nnode_modules/\n.DS_Store\n";
    let output = sort_git_ignore(input);
    assert_eq!(output, ".DS_Store\nnode_modules/\nvendor/\n");
}

#[test]
fn test_sort_preserves_sections() {
    let input = "\
# Build outputs
dist/
build/
target/

# Dependencies
vendor/
node_modules/
";
    let output = sort_git_ignore(input);
    let expected = "\
# Build outputs
build/
dist/
target/

# Dependencies
node_modules/
vendor/
";
    assert_eq!(output, expected);
}

#[test]
fn test_negation_sort_key() {
    // !important should sort as "important", not by "!"
    let input = "zebra\n!important\napple\n";
    let output = sort_git_ignore(input);
    assert_eq!(output, "apple\n!important\nzebra\n");
}

#[test]
fn test_case_insensitive() {
    let input = "Zebra\napple\nBanana\n";
    let output = sort_git_ignore(input);
    assert_eq!(output, "apple\nBanana\nZebra\n");
}

#[test]
fn test_trailing_newline_preserved() {
    let input = "b\na\n";
    let output = sort_git_ignore(input);
    assert!(output.ends_with('\n'));
}

#[test]
fn test_no_trailing_newline_preserved() {
    let input = "b\na";
    let output = sort_git_ignore(input);
    assert!(!output.ends_with('\n'));
}

#[test]
fn test_blank_lines_as_separators() {
    let input = "c\nb\n\nz\na\n";
    let output = sort_git_ignore(input);
    assert_eq!(output, "b\nc\n\na\nz\n");
}

#[test]
fn test_standalone_comment_preserved() {
    let input = "# This is a standalone comment\n\nb\na\n";
    let output = sort_git_ignore(input);
    assert_eq!(output, "# This is a standalone comment\n\na\nb\n");
}

#[test]
fn test_already_sorted_returns_identical() {
    let input = ".DS_Store\nnode_modules/\nvendor/\n";
    let output = sort_git_ignore(input);
    assert_eq!(output, input);
}

#[test]
fn test_inline_comment_attached_to_pattern() {
    // A comment immediately followed (no blank line) by patterns is a
    // section header and travels with those patterns as a unit.
    let input = "# Section\nzebra\napple\n";
    let output = sort_git_ignore(input);
    assert_eq!(output, "# Section\napple\nzebra\n");
}

#[test]
fn sorting_twice_changes_nothing() {
    for input in [
        "zebra\n# about apple\napple\n\n!b\nA\n",
        "b\na\n# trailing",
        "\n\n# x\n\nb\na",
        "# h\n!!\nb\n!\n# t\n",
        "a\n\n",
        "\n\n",
    ] {
        let once = sort_git_ignore(input);
        assert_eq!(sort_git_ignore(&once), once, "input {:?}", input);
    }
}

#[test]
fn two_final_empty_lines_are_not_stable() {
    // A text ending with two empty lines after some other line loses one
    // empty line on each pass.
    let once = sort_git_ignore("a\n\n\n");
    assert_eq!(once, "a\n\n");
    assert_eq!(sort_git_ignore(&once), "a\n");
}

#[test]
fn carriage_return_before_line_feed_is_read_as_line_end() {
    // The final line keeps its `\r`; once it is moved before a line feed,
    // the next pass reads `\r\n` as a line end.
    let once = sort_git_ignore("b\na\r");
    assert_eq!(once, "a\r\nb");
    assert_eq!(sort_git_ignore(&once), "a\nb");
}

#[test]
fn crlf_line_endings_become_line_feeds() {
    assert_eq!(sort_git_ignore("b\r\na\r\n"), "a\nb\n");
}

#[test]
fn trailing_comment_group_sorts_first() {
    assert_eq!(sort_git_ignore("b\na\n# trailing\n"), "# trailing\na\nb\n");
}

#[test]
fn comment_moves_with_its_pattern() {
    assert_eq!(
        sort_git_ignore("zebra\n# about apple\napple\n"),
        "# about apple\napple\nzebra\n"
    );
}

#[test]
fn equal_keys_keep_their_order() {
    assert_eq!(sort_git_ignore("b\nA\na\n"), "A\na\nb\n");
    assert_eq!(sort_git_ignore("b\na\nA\n"), "a\nA\nb\n");
}

#[test]
fn surrounding_white_space_is_ignored_for_order() {
    assert_eq!(sort_git_ignore("  zeta\nalpha \n"), "alpha \n  zeta\n");
}

#[test]
fn empty_and_newline_only_texts() {
    assert_eq!(sort_git_ignore(""), "");
    assert_eq!(sort_git_ignore("\n"), "\n");
    assert_eq!(sort_git_ignore("\n\n"), "\n");
}

#[test]
fn blank_lines_stay_in_place() {
    assert_eq!(sort_git_ignore("c\n\n  \nb\na"), "c\n\n  \na\nb");
}

#[test]
fn comments_before_a_blank_line_are_left_alone() {
    assert_eq!(sort_git_ignore("# two\n# one\n\nb\na\n"), "# two\n# one\n\na\nb\n");
}

#[test]
fn all_leading_bangs_are_ignored() {
    assert_eq!(sort_git_ignore("!!b\n!a\nc\n"), "!a\n!!b\nc\n");
}

#[test]
fn only_ascii_letters_are_folded() {
    assert_eq!(sort_git_ignore("É\ne\n"), "e\nÉ\n");
    assert_eq!(sort_git_ignore("é\nE\n"), "E\né\n");
}

#[test]
fn final_newline_kept_either_way() {
    for input in ["b\na", "b\na\n", "# c", "x\n\n", "  ", " \n"] {
        assert_eq!(sort_git_ignore(input).ends_with('\n'), input.ends_with('\n'), "input {:?}", input);
    }
}

#[test]
fn every_line_is_kept() {
    let input = "z\n# c\ny\n!x\n\nb\n# d\na\n# e";
    let output = sort_git_ignore(input);
    let mut before: Vec<&str> = input.lines().collect();
    let mut after: Vec<&str> = output.lines().collect();
    before.sort();
    after.sort();
    assert_eq!(before, after);
    assert_eq!(output, "!x\n# c\ny\nz\n\n# e\n# d\na\nb");
}
