//! The object model.

use snapref::object::{
    clean_text, encode_snapshot, encode_tree, id_of, parse_encoded, parse_snapshot, parse_tree,
    read, valid_id, Kind, Objects, Snapshot, Stats, TreeEntry, MODE_DIR, MODE_EXEC, MODE_FILE,
};

const EMPTY: &str = "e69de29bb2d1d6434b8b29ae775ad8c2e48c5391";
const HELLO: &str = "3b18e512dba79e4c8300dd08aeb37f8e728b8dad";

#[test]
fn blob_ids_match_git_hash_object() {
    assert_eq!(
        id_of(Kind::Blob, b""),
        "e69de29bb2d1d6434b8b29ae775ad8c2e48c5391"
    );
    assert_eq!(
        id_of(Kind::Blob, b"hello world\n"),
        "3b18e512dba79e4c8300dd08aeb37f8e728b8dad"
    );
}

#[test]
fn write_then_read_round_trips() {
    let mut objects = Objects::new();
    let id = snapref::object::write(&mut objects, Kind::Blob, b"payload bytes");
    let (kind, payload) = read(&objects, &id).unwrap();
    assert_eq!(kind, Kind::Blob);
    assert_eq!(payload, b"payload bytes");
}

#[test]
fn writing_the_same_content_twice_stores_one_object() {
    let mut objects = Objects::new();
    let id1 = snapref::object::write(&mut objects, Kind::Blob, b"same");
    let id2 = snapref::object::write(&mut objects, Kind::Blob, b"same");
    assert_eq!(id1, id2);
    assert_eq!(objects.count(), 1);
    assert_eq!(objects.added(), &vec![id1]);
}

#[test]
fn corrupted_length_header_is_rejected() {
    let mut objects = Objects::new();
    let id = snapref::object::write(&mut objects, Kind::Blob, b"12345");
    objects.load(id.clone(), b"blob 99\x0012345".to_vec());
    let err = read(&objects, &id).unwrap_err();
    assert!(err.contains("declares 99 bytes"), "got: {err}");
}

#[test]
fn tree_encoding_round_trips_names_with_spaces() {
    let entries = vec![
        TreeEntry {
            mode: MODE_FILE.into(),
            id: "e69de29bb2d1d6434b8b29ae775ad8c2e48c5391".into(),
            name: "notes and ideas.md".into(),
        },
        TreeEntry {
            mode: MODE_DIR.into(),
            id: "3b18e512dba79e4c8300dd08aeb37f8e728b8dad".into(),
            name: "src".into(),
        },
    ];
    let parsed = parse_tree(&encode_tree(&entries)).unwrap();
    assert_eq!(parsed, entries);
    assert!(parsed[1].is_dir());
}

#[test]
fn snapshot_encoding_round_trips_all_fields() {
    let snap = Snapshot {
        id: String::new(),
        tree: "e69de29bb2d1d6434b8b29ae775ad8c2e48c5391".into(),
        parent: Some("3b18e512dba79e4c8300dd08aeb37f8e728b8dad".into()),
        turn: 7,
        time: 1_783_850_400,
        stats: Stats {
            files_added: 1,
            files_modified: 2,
            files_deleted: 3,
            lines_added: 40,
            lines_removed: 5,
        },
        agent: "demo-agent".into(),
        label: "fix the parser: handle empty input".into(),
    };
    let parsed = parse_snapshot("someid", &encode_snapshot(&snap)).unwrap();
    assert_eq!(parsed.tree, snap.tree);
    assert_eq!(parsed.parent, snap.parent);
    assert_eq!(parsed.turn, 7);
    assert_eq!(parsed.time, 1_783_850_400);
    assert_eq!(parsed.stats, snap.stats);
    assert_eq!(parsed.agent, "demo-agent");
    assert_eq!(parsed.label, "fix the parser: handle empty input");
    assert_eq!(parsed.id, "someid");
}

#[test]
fn root_snapshot_has_no_parent_and_empty_metadata() {
    let snap = Snapshot {
        id: String::new(),
        tree: "e69de29bb2d1d6434b8b29ae775ad8c2e48c5391".into(),
        parent: None,
        turn: 1,
        time: 0,
        stats: Stats::default(),
        agent: String::new(),
        label: String::new(),
    };
    let parsed = parse_snapshot("x", &encode_snapshot(&snap)).unwrap();
    assert_eq!(parsed.parent, None);
    assert_eq!(parsed.agent, "");
    assert_eq!(parsed.label, "");
    assert!(parsed.stats.is_empty());
}

#[test]
fn clean_text_flattens_newlines() {
    assert_eq!(clean_text("a\nb\r\nc  "), "a b  c");
}

#[test]
fn cleaning_twice_changes_nothing_more() {
    let once = clean_text("\n  two\nlines \r\n");
    assert_eq!(once, "two lines");
    assert_eq!(clean_text(&once), once);
}

#[test]
fn kinds_and_their_tags_correspond() {
    for kind in [Kind::Blob, Kind::Tree, Kind::Snapshot] {
        assert_eq!(Kind::from_tag(kind.tag()), Some(kind));
    }
    assert_eq!(Kind::from_tag("commit"), None);
    assert_eq!(Kind::Blob.tag(), "blob");
}

#[test]
fn every_header_error_has_its_message() {
    let err = |data: &[u8]| parse_encoded("ID", data).unwrap_err();
    assert_eq!(err(b"blob 3"), "object ID has no header terminator");
    assert_eq!(err(b"bl\xffob 3\0abc"), "object ID has a non-UTF-8 header");
    assert_eq!(err(b"blob3\0abc"), "object ID has a malformed header");
    assert_eq!(err(b"commit 3\0abc"), "object ID has unknown kind 'commit'");
    assert_eq!(err(b"blob three\0abc"), "object ID has a malformed length");
    assert_eq!(err(b"blob 4\0abc"), "object ID declares 4 bytes but has 3");
    let (kind, payload) = parse_encoded("ID", b"tree 2\0\0x").unwrap();
    assert_eq!(kind, Kind::Tree);
    assert_eq!(payload, b"\0x");
}

#[test]
fn reading_names_what_is_wrong_with_an_id() {
    let objects = Objects::new();
    assert_eq!(read(&objects, "short").unwrap_err(), "malformed object id: short");
    assert_eq!(
        read(&objects, EMPTY).unwrap_err(),
        "missing object e69de29bb2d1d6434b8b29ae775ad8c2e48c5391"
    );
    assert!(valid_id(EMPTY));
    assert!(valid_id(&EMPTY.to_uppercase()));
    assert!(!valid_id("e69de29bb2d1d6434b8b29ae775ad8c2e48c539g"));
    assert!(!valid_id(&EMPTY[..39]));
}

#[test]
fn tree_errors_quote_the_line() {
    assert_eq!(parse_tree(b"\xff").unwrap_err(), "tree payload is not UTF-8");
    assert_eq!(
        parse_tree(b"100644 nope name\n").unwrap_err(),
        "malformed tree entry: 100644 nope name"
    );
    let no_name = format!("100644 {EMPTY} \n");
    assert!(parse_tree(no_name.as_bytes()).is_err());
    let no_space = format!("100644 {EMPTY}\n");
    assert!(parse_tree(no_space.as_bytes()).is_err());
    assert_eq!(parse_tree(b"").unwrap().len(), 0);
}

#[test]
fn tree_modes_tell_directories_and_executables() {
    let text = format!("{MODE_EXEC} {EMPTY} run.sh\n{MODE_FILE} {HELLO} a\n");
    let entries = parse_tree(text.as_bytes()).unwrap();
    assert!(entries[0].is_exec() && !entries[0].is_dir());
    assert!(!entries[1].is_exec() && !entries[1].is_dir());
    assert_eq!(encode_tree(&entries), text.as_bytes());
    assert_eq!(entries[0], entries[0].clone());
    assert_ne!(entries[0], entries[1]);
}

#[test]
fn a_name_ending_in_a_carriage_return_keeps_it() {
    let entries = vec![TreeEntry {
        mode: MODE_FILE.into(),
        id: EMPTY.into(),
        name: "odd\r".into(),
    }];
    let parsed = parse_tree(&encode_tree(&entries)).unwrap();
    assert_eq!(parsed, entries);
    assert_eq!(parsed[0].name, "odd\r");
}

#[test]
fn record_lines_end_at_newlines_only() {
    let text = format!(
        "tree {EMPTY}\nparent -\nturn 1\ntime 0\nstats 0 0 0 0 0\nagent a\r\nlabel odd\r\n"
    );
    let snap = parse_snapshot("x", text.as_bytes()).unwrap();
    assert_eq!((snap.agent.as_str(), snap.label.as_str()), ("a\r", "odd\r"));
    assert_eq!(encode_snapshot(&snap), text.as_bytes());
}

#[test]
fn snapshot_errors_come_in_field_order() {
    let good = [
        format!("tree {EMPTY}"),
        "parent -".to_string(),
        "turn 1".to_string(),
        "time 0".to_string(),
        "stats 0 0 0 0 0".to_string(),
        "agent a".to_string(),
        "label l".to_string(),
    ];
    let parse = |lines: &[String]| {
        let text = lines.join("\n") + "\n";
        parse_snapshot("S", text.as_bytes())
    };
    assert!(parse(&good).is_ok());
    for (i, name) in ["tree", "parent", "turn", "time", "stats", "agent", "label"]
        .iter()
        .enumerate()
    {
        let mut lines = good.to_vec();
        lines[i] = "junk".to_string();
        assert_eq!(
            parse(&lines).unwrap_err(),
            format!("snapshot S is missing the '{name}' field")
        );
    }
    let with = |i: usize, line: &str| {
        let mut lines = good.to_vec();
        lines[i] = line.to_string();
        parse(&lines).unwrap_err()
    };
    assert_eq!(with(2, "turn x"), "snapshot S has a malformed turn");
    assert_eq!(with(3, "time x"), "snapshot S has a malformed time");
    assert_eq!(with(4, "stats 1 2 3 4"), "snapshot S has malformed stats");
    assert_eq!(with(4, "stats 1 2 3 4 x"), "snapshot S has malformed stats");
    assert_eq!(with(0, "tree zz"), "snapshot S references a malformed object id");
    assert_eq!(with(1, "parent zz"), "snapshot S references a malformed object id");
    assert_eq!(
        parse_snapshot("S", b"\xff").unwrap_err(),
        "snapshot S payload is not UTF-8"
    );
}

#[test]
fn stats_are_empty_only_without_any_change() {
    let mut stats = Stats::default();
    assert!(stats.is_empty());
    stats.lines_removed = 1;
    assert!(!stats.is_empty());
}
