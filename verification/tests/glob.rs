//! Ignore patterns.

use snapref::glob::{parse_lines, Pattern};

fn pat(s: &str) -> Pattern {
    Pattern::parse(s).expect("pattern should parse")
}

#[test]
fn bare_name_matches_at_any_depth() {
    let p = pat("scratch.txt");
    assert!(p.matches("scratch.txt", false));
    assert!(p.matches("deep/nested/scratch.txt", false));
    assert!(!p.matches("scratch.txt.bak", false));
}

#[test]
fn star_matches_within_a_component_only() {
    let p = pat("*.log");
    assert!(p.matches("build.log", false));
    assert!(p.matches("logs/build.log", false)); // bare name, any depth
    assert!(!p.matches("build.log2", false));
}

#[test]
fn question_mark_matches_one_byte() {
    let p = pat("v?.txt");
    assert!(p.matches("v1.txt", false));
    assert!(!p.matches("v10.txt", false));
}

#[test]
fn anchored_pattern_matches_from_the_root() {
    let p = pat("docs/*.md");
    assert!(p.matches("docs/guide.md", false));
    assert!(!p.matches("src/docs/guide.md", false));
    assert!(!p.matches("docs/sub/guide.md", false)); // `*` does not cross `/`
}

#[test]
fn double_star_crosses_directories() {
    let p = pat("gen/**/*.rs");
    assert!(p.matches("gen/a.rs", false));
    assert!(p.matches("gen/x/y/b.rs", false));
    assert!(!p.matches("src/gen/a.rs", false)); // anchored
}

#[test]
fn trailing_slash_is_directory_only() {
    let p = pat("cache/");
    assert!(p.matches("cache", true));
    assert!(p.matches("a/cache", true));
    assert!(!p.matches("cache", false)); // a *file* named cache stays
}

#[test]
fn dir_pattern_with_double_star_covers_contents() {
    let p = pat("vendor/**");
    assert!(p.matches("vendor", true)); // `**` may consume zero components
    assert!(p.matches("vendor/pkg/mod.rs", false));
}

#[test]
fn comments_blanks_and_negations_are_skipped() {
    assert!(Pattern::parse("").is_none());
    assert!(Pattern::parse("   ").is_none());
    assert!(Pattern::parse("# a comment").is_none());
    assert!(Pattern::parse("!keep-me.txt").is_none());
    assert_eq!(parse_lines("# hdr\n\n*.tmp\ncache/\n").len(), 2);
}

#[test]
fn multibyte_names_match_via_literals_and_star() {
    let p = pat("メモ*.txt");
    assert!(p.matches("メモ-1.txt", false));
    assert!(!p.matches("めも-1.txt", false));
}

#[test]
fn star_matches_names_that_hold_a_star() {
    let p = pat("*");
    assert!(p.matches("*", false));
    assert!(p.matches("*abc", false));
    assert!(pat("*.c").matches("a*.c", false));
    assert!(pat("a*b").matches("a*x*b", false));
}

#[test]
fn several_stars_backtrack() {
    let p = pat("a*b*c");
    assert!(p.matches("abc", false));
    assert!(p.matches("aXbYbZc", false));
    assert!(p.matches("abbbcbc", false));
    assert!(!p.matches("aXbYb", false));
    assert!(!p.matches("Xabc", false));
}

#[test]
fn a_leading_slash_anchors_a_single_name() {
    let p = pat("/build");
    assert!(p.matches("build", true));
    assert!(!p.matches("a/build", true));
}

#[test]
fn only_slashes_are_no_pattern() {
    assert!(Pattern::parse("/").is_none());
    assert!(Pattern::parse("///").is_none());
}

#[test]
fn the_empty_path_matches_nothing() {
    assert!(!pat("*").matches("", true));
    assert!(!pat("a/**").matches("/", true));
}

#[test]
fn patterns_are_trimmed_and_lines_may_end_in_carriage_returns() {
    let list = parse_lines("  *.log \r\ntmp/\r\n");
    assert_eq!(list.len(), 2);
    assert!(list[0].matches("x.log", false));
    assert!(list[1].matches("tmp", true));
    assert!(!list[1].matches("tmp", false));
    let copy = list[0].clone();
    assert!(copy.matches("x.log", false));
}
