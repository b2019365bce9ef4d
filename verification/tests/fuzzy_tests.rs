//! Tests of the fuzzy line matcher.

use lang_tester::fuzzy::{match_line, match_vec};
use lang_tester::pattern::{Pattern, PatternError};

fn match_vec_helper(p: &str, s: &str) -> bool {
    match_vec(&p.lines().collect::<Vec<_>>(), s)
}

#[test]
fn test_match_vec() {
    assert!(match_vec_helper("", ""));
    assert!(match_vec_helper("", "\n"));
    assert!(match_vec_helper("\n", "\n"));
    assert!(match_vec_helper("a", "a"));
    assert!(match_vec_helper("a", "a"));
    assert!(match_vec_helper("...\na", "a"));
    assert!(match_vec_helper("...\na\n...", "a"));
    assert!(match_vec_helper("a\n...", "a"));
    assert!(match_vec_helper("a\n...\nd", "a\nd"));
    assert!(match_vec_helper("a\n...\nd", "a\nb\nc\nd"));
    assert!(!match_vec_helper("a\n...\nd", "a\nb\nc"));
    assert!(match_vec_helper("a\n...\nc\n...\ne", "a\nb\nc\nd\ne"));
    assert!(match_vec_helper("a\n...\n...b", "a\nb"));
}

#[test]
fn plain_pattern_matches_exactly() {
    // No wildcard: equal sequences match ...
    assert!(match_vec_helper("a\nb\nc", "a\nb\nc"));
    // ... and differing lines do not.
    assert!(!match_vec_helper("a\nb\nc", "a\nx\nc"));
    assert!(!match_vec_helper("a\nb", "x\nb"));
    // Lines are trimmed and outer blank lines ignored before comparison.
    assert!(match_vec_helper("a\nb", "  a \n\tb  \n\n"));
    // The walk stops when either side runs out, so a proper prefix on either
    // side also passes; these inputs fall outside the exact-equality law.
    assert!(match_vec_helper("a", "a\nb"));
    assert!(match_vec_helper("a\nb", "a"));
}

#[test]
fn lone_wildcard_matches_anything() {
    assert!(match_vec_helper("...", ""));
    assert!(match_vec_helper("...", "   \n  \n"));
    assert!(match_vec_helper("...", "a"));
    assert!(match_vec_helper("...", "a\nb\nc"));
}

#[test]
fn wildcard_skips_zero_or_more_lines() {
    assert!(match_vec_helper("a\n...\nd", "a\nd"));
    assert!(match_vec_helper("a\n...\nd", "a\nb\nc\nd"));
    assert!(!match_vec_helper("a\n...\nd", "a\nb\nc"));
}

#[test]
fn suffix_wildcard_matches_line_end() {
    assert!(match_vec_helper("a\n...\n...b", "a\nb"));
    assert!(match_line("...b", "a b"));
    assert!(match_line("...b", "b"));
    assert!(!match_line("...b", "b c"));
}

#[test]
fn prefix_wildcard_matches_line_start() {
    assert!(match_line("b...", "b c"));
    assert!(match_line("b...", "b"));
    assert!(!match_line("b...", "a b"));
    assert!(match_vec_helper("a\nwarn...", "a\nwarning: x"));
}

#[test]
fn match_line_is_exact_without_wildcard() {
    assert!(match_line("abc", "abc"));
    assert!(!match_line("abc", "abd"));
    assert!(!match_line("abc", "abcd"));
}

#[test]
fn wildcard_scan_takes_first_candidate() {
    // The scan stops at the first satisfying line; with "c" appearing twice,
    // the first one is taken and the rest must still match from there.
    assert!(match_vec_helper("a\n...\nc\nd", "a\nb\nc\nd"));
    assert!(!match_vec_helper("a\n...\nc\nd", "a\nb\nc\nx\nc"));
}

#[test]
fn pattern_construction_rejects_consecutive_wildcards() {
    assert_eq!(
        Pattern::from_text("...\n...").unwrap_err(),
        PatternError::ConsecutiveWildcards
    );
    assert_eq!(
        Pattern::from_text("a\n...\n...\nb").unwrap_err(),
        PatternError::ConsecutiveWildcards
    );
    // An interior blank line keeps the two wildcards apart.
    assert!(Pattern::from_text("...\n\n...").is_ok());
    // Leading and trailing blank lines are stripped, so these two wildcards
    // do become consecutive.
    assert_eq!(
        Pattern::from_text("\n...\n...\n\n").unwrap_err(),
        PatternError::ConsecutiveWildcards
    );
}

#[test]
fn pattern_cleaning_trims_and_strips_blank_edges() {
    let p = Pattern::from_text("\n  a  \n\n  b\n\n").unwrap();
    let lines: Vec<String> = p
        .lines
        .iter()
        .map(|l| l.iter().collect::<String>())
        .collect();
    assert_eq!(lines, vec!["a".to_string(), "".to_string(), "b".to_string()]);
}

#[test]
fn pattern_matches_text_like_match_vec() {
    let p = Pattern::from_text("a\n...\nd").unwrap();
    assert!(p.matches_text("a\nx\nd"));
    assert!(!p.matches_text("a\nx\ny"));
}
