//! Line attribution.

use snapref::blame::{attribute, add_version, BlameLine, Origin};

fn v(turn: u64, text: &str) -> (Origin, String) {
    (Origin::Turn(turn), text.to_string())
}

fn origins(lines: &[BlameLine]) -> Vec<Origin> {
    lines.iter().map(|l| l.origin).collect()
}

#[test]
fn single_version_charges_every_line_to_that_turn() {
    let out = attribute(&[v(1, "a\nb\nc\n")]);
    assert_eq!(origins(&out), vec![Origin::Turn(1); 3]);
    assert_eq!(out[2].line, 3);
    assert_eq!(out[2].text, "c");
}

#[test]
fn inserted_lines_are_charged_to_the_new_turn() {
    let out = attribute(&[v(1, "a\nc\n"), v(3, "a\nb\nc\n")]);
    assert_eq!(
        origins(&out),
        vec![Origin::Turn(1), Origin::Turn(3), Origin::Turn(1)]
    );
}

#[test]
fn replaced_lines_move_to_the_new_turn_untouched_lines_stay() {
    let out = attribute(&[v(1, "a\nb\nc\n"), v(2, "a\nB!\nc\n")]);
    assert_eq!(
        origins(&out),
        vec![Origin::Turn(1), Origin::Turn(2), Origin::Turn(1)]
    );
}

#[test]
fn deletions_shrink_the_attribution_vector() {
    let out = attribute(&[v(1, "a\nb\nc\nd\n"), v(2, "a\nd\n")]);
    assert_eq!(origins(&out), vec![Origin::Turn(1), Origin::Turn(1)]);
    assert_eq!(out[1].text, "d");
    assert_eq!(out[1].line, 2);
}

#[test]
fn attribution_survives_a_chain_of_edits() {
    // Turn 1 writes the file, turn 2 inserts in the middle, turn 4
    // appends, turn 5 rewrites the first line.
    let out = attribute(&[
        v(1, "top\nbottom\n"),
        v(2, "top\nmiddle\nbottom\n"),
        v(4, "top\nmiddle\nbottom\nend\n"),
        v(5, "TOP\nmiddle\nbottom\nend\n"),
    ]);
    assert_eq!(
        origins(&out),
        vec![
            Origin::Turn(5),
            Origin::Turn(2),
            Origin::Turn(1),
            Origin::Turn(4)
        ]
    );
}

#[test]
fn working_tree_origin_is_attributed_like_a_turn() {
    let out = attribute(&[
        v(1, "a\n"),
        (Origin::Working, "a\nuncommitted\n".to_string()),
    ]);
    assert_eq!(origins(&out), vec![Origin::Turn(1), Origin::Working]);
}

#[test]
fn a_line_deleted_and_reintroduced_belongs_to_the_reintroducer() {
    // Turn 2 deletes "b", turn 3 types the same text again: the line is
    // turn 3's; nothing guesses that it is "the same" line.
    let out = attribute(&[v(1, "a\nb\n"), v(2, "a\n"), v(3, "a\nb\n")]);
    assert_eq!(origins(&out), vec![Origin::Turn(1), Origin::Turn(3)]);
}

#[test]
fn every_origin_is_a_version_that_has_the_line() {
    let versions = [
        v(1, "one\ntwo\nthree\n"),
        v(2, "zero\none\nthree\n"),
        v(3, "zero\nthree\ntwo\n"),
    ];
    let out = attribute(&versions);
    assert_eq!(out.len(), 3);
    for line in &out {
        assert!(versions
            .iter()
            .any(|(o, text)| *o == line.origin && text.lines().any(|l| l == line.text)));
    }
}

#[test]
fn an_empty_version_has_no_lines() {
    assert_eq!(attribute(&[v(1, "")]).len(), 0);
}

#[test]
fn a_version_counts_only_where_it_differs_from_the_last() {
    let mut list = Vec::new();
    add_version(&mut list, 1, "a\n".to_string());
    add_version(&mut list, 2, "a\n".to_string());
    add_version(&mut list, 3, "b\n".to_string());
    add_version(&mut list, 4, "a\n".to_string());
    let turns: Vec<u64> = list.iter().map(|(t, _)| *t).collect();
    assert_eq!(turns, vec![1, 3, 4]);
}

#[test]
fn attributed_lines_compare_by_their_fields() {
    let a = attribute(&[v(1, "x\n")]);
    assert_eq!(a[0], a[0].clone());
    let b = attribute(&[v(2, "x\n")]);
    assert_ne!(a[0], b[0]);
}
