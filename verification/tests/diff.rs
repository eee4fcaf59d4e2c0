//! The diff engine and the unified renderer.

use snapref::diff::{counts, diff_ops, is_binary, split_lines, unified, Op};

/// Apply an edit script to `a`; the result must equal `b`, the core
/// correctness property of any diff implementation.
fn apply(a: &[&str], b: &[&str], ops: &[Op]) -> Vec<String> {
    let (mut ai, mut bi) = (0usize, 0usize);
    let mut out = Vec::new();
    for op in ops {
        match *op {
            Op::Equal(n) => {
                for _ in 0..n {
                    assert_eq!(a[ai], b[bi], "Equal over differing lines");
                    out.push(a[ai].to_string());
                    ai += 1;
                    bi += 1;
                }
            }
            Op::Del(n) => ai += n,
            Op::Ins(n) => {
                for _ in 0..n {
                    out.push(b[bi].to_string());
                    bi += 1;
                }
            }
        }
    }
    assert_eq!(ai, a.len(), "script did not consume all of a");
    assert_eq!(bi, b.len(), "script did not consume all of b");
    out
}

fn check(a: &[&str], b: &[&str]) -> Vec<Op> {
    let ops = diff_ops(a, b);
    assert_eq!(apply(a, b, &ops), b, "patched a != b");
    ops
}

/// The edit distance by the textbook table.
fn distance(a: &[&str], b: &[&str]) -> usize {
    let mut rows = vec![vec![0usize; b.len() + 1]; a.len() + 1];
    for x in 0..=a.len() {
        for y in 0..=b.len() {
            rows[x][y] = if x == 0 {
                y
            } else if y == 0 {
                x
            } else if a[x - 1] == b[y - 1] {
                rows[x - 1][y - 1]
            } else {
                1 + rows[x - 1][y].min(rows[x][y - 1])
            };
        }
    }
    rows[a.len()][b.len()]
}

#[test]
fn identical_inputs_yield_one_equal_run() {
    let a = ["x", "y", "z"];
    assert_eq!(check(&a, &a), vec![Op::Equal(3)]);
}

#[test]
fn pure_insertion_and_pure_deletion() {
    assert_eq!(check(&[], &["a", "b"]), vec![Op::Ins(2)]);
    assert_eq!(check(&["a", "b"], &[]), vec![Op::Del(2)]);
}

#[test]
fn single_line_replacement_in_the_middle() {
    let ops = check(&["a", "b", "c"], &["a", "X", "c"]);
    assert_eq!(counts(&ops), (1, 1));
}

#[test]
fn insertion_between_common_prefix_and_suffix() {
    let ops = check(&["a", "c"], &["a", "b", "c"]);
    assert_eq!(ops, vec![Op::Equal(1), Op::Ins(1), Op::Equal(1)]);
}

#[test]
fn completely_different_files() {
    let ops = check(&["1", "2"], &["8", "9", "10"]);
    assert_eq!(counts(&ops), (3, 2));
}

#[test]
fn repeated_lines_do_not_confuse_the_matcher() {
    // Classic Myers stress case: many identical lines.
    check(&["a", "a", "a", "b", "a"], &["a", "b", "a", "a"]);
}

#[test]
fn seeded_pseudo_random_scripts_all_apply_cleanly() {
    // Deterministic LCG fuzz: 40 pairs of small files over a tiny
    // alphabet, which maximizes tricky common subsequences.
    let mut seed = 0x5eed_cafe_u64;
    let mut next = move || {
        seed = seed
            .wrapping_mul(6364136223846793005)
            .wrapping_add(1442695040888963407);
        (seed >> 33) as usize
    };
    let alphabet = ["p", "q", "r"];
    for _ in 0..40 {
        let la = next() % 12;
        let lb = next() % 12;
        let a: Vec<&str> = (0..la).map(|_| alphabet[next() % 3]).collect();
        let b: Vec<&str> = (0..lb).map(|_| alphabet[next() % 3]).collect();
        check(&a, &b);
    }
}

#[test]
fn split_lines_handles_trailing_newlines() {
    assert_eq!(split_lines("a\nb\n").0, vec!["a", "b"]);
    assert_eq!(split_lines("a\nb"), (vec!["a", "b"], false));
    assert_eq!(split_lines("").0.len(), 0);
}

#[test]
fn split_lines_tells_whether_a_newline_ends_the_text() {
    assert!(split_lines("a\nb\n").1);
    assert!(split_lines("\n").1);
    assert_eq!(split_lines("\n").0, vec![""]);
    assert!(!split_lines("a\n\nb").1);
    assert_eq!(split_lines(""), (vec![], false));
}

#[test]
fn unified_renders_hunk_headers_and_markers() {
    let d = unified("old", "new", "a\nb\nc\n", "a\nX\nc\n", 1).unwrap();
    assert!(d.starts_with("--- old\n+++ new\n"));
    assert!(d.contains("@@ -1,3 +1,3 @@"));
    assert!(d.contains("\n-b\n"));
    assert!(d.contains("\n+X\n"));
}

#[test]
fn unified_reports_missing_trailing_newline() {
    let d = unified("old", "new", "a\nb\n", "a\nb", 3).unwrap();
    assert!(d.contains("-b\n"));
    assert!(d.contains("+b\n\\ No newline at end of file\n"));
}

#[test]
fn unified_new_file_uses_zero_base_header() {
    let d = unified("/dev/null", "new", "", "x\ny\n", 3).unwrap();
    assert!(d.contains("@@ -0,0 +1,2 @@"), "got: {d}");
}

#[test]
fn unified_splits_distant_changes_into_two_hunks() {
    let a = "1\n2\n3\n4\n5\n6\n7\n8\n9\n10\n11\n12\n";
    let b = "one\n2\n3\n4\n5\n6\n7\n8\n9\n10\n11\ntwelve\n";
    let d = unified("a", "b", a, b, 2).unwrap();
    assert_eq!(d.matches("@@ ").count(), 2, "got: {d}");
}

#[test]
fn binary_sniff_only_triggers_on_nul() {
    assert!(is_binary(b"ab\0cd"));
    assert!(!is_binary("plain text\nwith unicode: 日本語\n".as_bytes()));
}

#[test]
fn binary_sniff_stops_after_eight_kibibytes() {
    let mut data = vec![b'x'; 8192];
    data.push(0);
    assert!(!is_binary(&data));
    data[8191] = 0;
    assert!(is_binary(&data));
}

#[test]
fn scripts_are_as_short_as_any_script_can_be() {
    let alphabet = ["p", "q"];
    let mut seed = 12345u64;
    for _ in 0..200 {
        let mut pick = |n: u64| {
            seed = seed
                .wrapping_mul(6364136223846793005)
                .wrapping_add(1442695040888963407);
            (seed >> 33) % n
        };
        let la = pick(9);
        let lb = pick(9);
        let a: Vec<&str> = (0..la).map(|_| alphabet[pick(2) as usize]).collect();
        let b: Vec<&str> = (0..lb).map(|_| alphabet[pick(2) as usize]).collect();
        let ops = check(&a, &b);
        let (add, rem) = counts(&ops);
        assert_eq!(add + rem, distance(&a, &b));
        for pair in ops.windows(2) {
            assert!(!matches!(
                (pair[0], pair[1]),
                (Op::Equal(_), Op::Equal(_)) | (Op::Del(_), Op::Del(_)) | (Op::Ins(_), Op::Ins(_))
            ));
        }
    }
}

#[test]
fn the_chosen_script_deletes_before_it_inserts() {
    assert_eq!(
        diff_ops(&["a", "b", "c", "a", "b", "b", "a"], &["c", "b", "a", "b", "a", "c"]),
        vec![
            Op::Del(2),
            Op::Equal(1),
            Op::Ins(1),
            Op::Equal(2),
            Op::Del(1),
            Op::Equal(1),
            Op::Ins(1),
        ]
    );
}

#[test]
fn unified_is_silent_exactly_on_identical_texts() {
    assert!(unified("a", "b", "same\n", "same\n", 3).is_none());
    assert!(unified("a", "b", "", "", 3).is_none());
    assert_eq!(
        unified("a", "b", "x\n", "x", 3).unwrap(),
        "--- a\n+++ b\n@@ -1,1 +1,1 @@\n-x\n+x\n\\ No newline at end of file\n"
    );
}

#[test]
fn a_line_matches_only_with_its_newline() {
    // The last line of the old side has no newline, so it changes when lines
    // follow it; git shows the same.
    assert_eq!(
        unified("a", "b", "x", "x\ny\n", 3).unwrap(),
        "--- a\n+++ b\n@@ -1,1 +1,2 @@\n-x\n\\ No newline at end of file\n+x\n+y\n"
    );
    assert_eq!(
        unified("a", "b", "x\ny\n", "x", 3).unwrap(),
        "--- a\n+++ b\n@@ -1,2 +1,1 @@\n-x\n-y\n+x\n\\ No newline at end of file\n"
    );
    // Both sides end without a newline: the shared last line is context.
    assert_eq!(
        unified("a", "b", "p\nx", "q\nx", 3).unwrap(),
        "--- a\n+++ b\n@@ -1,2 +1,2 @@\n-p\n+q\n x\n\\ No newline at end of file\n"
    );
}

#[test]
fn changed_regions_list_deletions_first() {
    assert_eq!(
        unified("a", "b", "1\n2\n3\n", "x\ny\n3\n", 0).unwrap(),
        "--- a\n+++ b\n@@ -1,2 +1,2 @@\n-1\n-2\n+x\n+y\n"
    );
}

#[test]
fn context_reaches_as_far_as_it_is_asked_to() {
    let a = "1\n2\n3\n4\n5\n";
    let b = "1\n2\nX\n4\n5\n";
    assert_eq!(
        unified("a", "b", a, b, 1).unwrap(),
        "--- a\n+++ b\n@@ -2,3 +2,3 @@\n 2\n-3\n+X\n 4\n"
    );
    assert_eq!(
        unified("a", "b", a, b, usize::MAX).unwrap(),
        "--- a\n+++ b\n@@ -1,5 +1,5 @@\n 1\n 2\n-3\n+X\n 4\n 5\n"
    );
}

#[test]
fn deleting_everything_uses_a_zero_base_on_the_new_side() {
    assert_eq!(
        unified("a", "/dev/null", "x\n", "", 3).unwrap(),
        "--- a\n+++ /dev/null\n@@ -1,1 +0,0 @@\n-x\n"
    );
}
