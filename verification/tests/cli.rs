//! Command-line pieces: JSON strings, labels, paths, and the reading of
//! arguments.

use snapref::args::{dispatch, main_help, parse_command, Request, Start};
use snapref::cli::{
    describe, json_str, normalize, parse_side, rel_path, short, side_name, truncate, Side,
};
use snapref::object::{Snapshot, Stats};

fn strings(args: &[&str]) -> Vec<String> {
    args.iter().map(|s| s.to_string()).collect()
}

fn fails(name: &str, args: &[&str]) -> String {
    let fail = parse_command(name, &strings(args)).unwrap_err();
    assert_eq!(fail.code, 2);
    fail.msg
}

#[test]
fn json_strings_escape_quotes_and_control_bytes() {
    assert_eq!(json_str("plain"), "\"plain\"");
    assert_eq!(json_str("a\"b\\c"), "\"a\\\"b\\\\c\"");
    assert_eq!(json_str("line\nbreak\ttab"), "\"line\\nbreak\\ttab\"");
    assert_eq!(json_str("\u{1}"), "\"\\u0001\"");
}

#[test]
fn json_strings_escape_every_control_character() {
    assert_eq!(json_str("\r\u{1f}\u{7f}日"), "\"\\r\\u001f\u{7f}日\"");
    for code in 0..0x20u32 {
        let text = char::from_u32(code).unwrap().to_string();
        assert!(json_str(&text).chars().all(|c| (c as u32) >= 0x20));
    }
}

#[test]
fn normalize_resolves_dot_and_dotdot_lexically() {
    assert_eq!(normalize(b"/a/b/../c/./d"), b"/a/c/d");
    assert_eq!(normalize(b"/a/../../b"), b"/b");
}

#[test]
fn normalize_keeps_relative_paths_relative() {
    assert_eq!(normalize(b"a/./b//../c"), b"a/c");
    assert_eq!(normalize(b"../x"), b"x");
    assert_eq!(normalize(b""), b"");
    assert_eq!(normalize(b"/"), b"/");
}

#[test]
fn truncate_appends_a_two_dot_ellipsis() {
    assert_eq!(truncate("short", 10), "short");
    assert_eq!(truncate("exactly-10", 10), "exactly-10");
    assert_eq!(truncate("much longer than that", 10), "much lon..");
}

#[test]
fn truncate_counts_characters() {
    assert_eq!(truncate("日本語日本語", 5), "日本語..");
    assert_eq!(truncate("日本語", 3), "日本語");
}

#[test]
fn paths_are_resolved_against_the_working_tree() {
    let work = b"/home/u/proj";
    let ok = |base: &[u8], raw: &str| rel_path(work, base, raw).unwrap();
    assert_eq!(ok(b"/home/u/proj", "src/a.rs"), "src/a.rs");
    assert_eq!(ok(b"/home/u/proj/src", "a.rs"), "src/a.rs");
    assert_eq!(ok(b"/home/u/proj/src", "../b//./c.rs"), "b/c.rs");
    assert_eq!(ok(b"/elsewhere", "/home/u/proj/x"), "x");
    let err = |base: &[u8], raw: &str| rel_path(work, base, raw).unwrap_err();
    let f = err(b"/home/u/proj", "../other");
    assert_eq!((f.code, f.msg.as_str()), (1, "path is outside the working tree: ../other"));
    let f = err(b"/home/u/proj/src", "..");
    assert_eq!(
        f.msg,
        "path resolves to the working-tree root; name a file or subdirectory"
    );
    let f = err(b"/home/u/proj/\xff", "a");
    assert_eq!(f.msg, "path is not valid UTF-8: a");
    assert_eq!(ok(b"/home/u/proj/\xff", "../a"), "a");
}

#[test]
fn ids_are_shortened_to_eight_characters() {
    assert_eq!(short("3b18e512dba79e4c"), "3b18e512");
    assert_eq!(short("3b18"), "3b18");
}

#[test]
fn descriptions_name_the_agent_and_the_label() {
    let mut snap = Snapshot {
        id: String::new(),
        tree: String::new(),
        parent: None,
        turn: 1,
        time: 0,
        stats: Stats::default(),
        agent: String::new(),
        label: String::new(),
    };
    assert_eq!(describe(&snap), "(no label)");
    snap.label = "fix".into();
    assert_eq!(describe(&snap), "fix");
    snap.agent = "bot".into();
    assert_eq!(describe(&snap), "bot: fix");
    snap.label = String::new();
    assert_eq!(describe(&snap), "bot: (no label)");
}

#[test]
fn sides_are_turns_or_the_working_tree() {
    assert_eq!(parse_side("wt").unwrap(), Side::Working);
    assert_eq!(parse_side("@").unwrap(), Side::Working);
    assert_eq!(parse_side("worktree").unwrap(), Side::Working);
    assert_eq!(parse_side("12").unwrap(), Side::Turn(12));
    let f = parse_side("x").unwrap_err();
    assert_eq!(f.code, 2);
    assert_eq!(
        f.msg,
        "'x' is not a turn number or 'wt' (see 'snapref diff --help')"
    );
    assert_eq!(side_name(Side::Turn(3)), "turn 3");
    assert_eq!(side_name(Side::Working), "wt");
}

#[test]
fn global_options_come_before_the_command() {
    match dispatch(&strings(&["-C", "/a", "-C", "/b", "log", "-C"])).unwrap() {
        Start::Command { dir, at } => {
            assert_eq!(dir, Some("/b".to_string()));
            assert_eq!(at, 4);
        }
        other => panic!("unexpected {other:?}"),
    }
    let f = dispatch(&strings(&["-C"])).unwrap_err();
    assert_eq!((f.code, f.msg.as_str()), (2, "-C requires a directory argument"));
    assert!(matches!(dispatch(&strings(&["-V"])).unwrap(), Start::Print(s) if s == "snapref 0.1.0\n"));
    assert!(matches!(dispatch(&strings(&["help"])).unwrap(), Start::Print(s) if s == main_help()));
    assert!(matches!(dispatch(&[]).unwrap(), Start::Complain(s) if s == main_help()));
}

#[test]
fn snap_options_are_read() {
    let args = strings(&["--label", "a b", "--agent", "bot", "--turn", "7", "--json"]);
    match parse_command("snap", &args).unwrap() {
        Request::Snap(o) => {
            assert_eq!(o.label, "a b");
            assert_eq!(o.agent, Some("bot".to_string()));
            assert_eq!(o.turn, Some(7));
            assert!(o.json);
        }
        other => panic!("unexpected {other:?}"),
    }
    assert_eq!(fails("snap", &["--label"]), "--label requires a value");
    assert_eq!(
        fails("snap", &["--turn", "x"]),
        "--turn requires a number (got 'x')"
    );
    assert_eq!(fails("snap", &["file"]), "unknown snap option 'file'");
}

#[test]
fn log_and_status_options_are_read() {
    match parse_command("log", &strings(&["--limit", "2"])).unwrap() {
        Request::Log(o) => {
            assert_eq!(o.limit, Some(2));
            assert!(!o.json);
        }
        other => panic!("unexpected {other:?}"),
    }
    assert_eq!(fails("log", &["--nope"]), "unknown log option '--nope'");
    assert!(matches!(
        parse_command("status", &strings(&["--json"])).unwrap(),
        Request::Status(true)
    ));
    assert_eq!(fails("status", &["-x"]), "unknown status option '-x'");
}

#[test]
fn blame_options_are_read() {
    match parse_command("blame", &strings(&["--at", "3", "src/a.rs", "--json"])).unwrap() {
        Request::Blame(o) => {
            assert_eq!(o.path, "src/a.rs");
            assert_eq!(o.at, Some(3));
            assert!(o.json);
        }
        other => panic!("unexpected {other:?}"),
    }
    assert_eq!(
        fails("blame", &[]),
        "blame requires a PATH (see 'snapref blame --help')"
    );
    assert_eq!(fails("blame", &["a", "b"]), "blame takes exactly one PATH");
    assert_eq!(fails("blame", &["-q"]), "unknown blame option '-q'");
}

#[test]
fn diff_options_are_read() {
    match parse_command("diff", &strings(&["1", "--path", "a", "wt", "--path", "b"])).unwrap() {
        Request::Diff(o) => {
            assert_eq!(o.sides, vec!["1", "wt"]);
            assert_eq!(o.paths, vec!["a", "b"]);
            assert!(!o.json);
        }
        other => panic!("unexpected {other:?}"),
    }
    assert_eq!(
        fails("diff", &["1", "2", "3"]),
        "diff takes at most two revision arguments"
    );
    assert_eq!(fails("diff", &["--x"]), "unknown diff option '--x'");
}

#[test]
fn show_options_are_read() {
    match parse_command("show", &strings(&["2:src/a.rs"])).unwrap() {
        Request::Show(o) => {
            assert_eq!(o.target, "2:src/a.rs");
            assert!(!o.json);
        }
        other => panic!("unexpected {other:?}"),
    }
    assert_eq!(
        fails("show", &[]),
        "show requires TURN or TURN:PATH (see 'snapref show --help')"
    );
    assert_eq!(
        fails("show", &["1", "2"]),
        "show takes exactly one TURN[:PATH] argument"
    );
    assert_eq!(fails("show", &["-1"]), "unknown show option '-1'");
}

#[test]
fn restore_options_are_read() {
    let args = strings(&["--force", "4", "--path", "src", "--no-backup"]);
    match parse_command("restore", &args).unwrap() {
        Request::Restore(o) => {
            assert_eq!(o.turn, 4);
            assert_eq!(o.paths, vec!["src"]);
            assert!(o.force && o.no_backup);
        }
        other => panic!("unexpected {other:?}"),
    }
    assert_eq!(
        fails("restore", &[]),
        "restore requires a TURN (see 'snapref restore --help')"
    );
    assert_eq!(fails("restore", &["1", "2"]), "restore takes exactly one TURN");
    assert_eq!(fails("restore", &["one"]), "'one' is not a turn number");
    assert_eq!(fails("restore", &["-f"]), "unknown restore option '-f'");
}

#[test]
fn commands_without_arguments_refuse_them() {
    assert!(matches!(parse_command("init", &[]).unwrap(), Request::Init));
    assert!(matches!(parse_command("verify", &[]).unwrap(), Request::Verify));
    assert_eq!(fails("init", &["x"]), "init takes no arguments (got 'x')");
    assert_eq!(fails("verify", &["x"]), "verify takes no arguments (got 'x')");
    assert_eq!(
        fails("frobnicate", &[]),
        "unknown command 'frobnicate' (see 'snapref --help')"
    );
}

#[test]
fn every_command_has_its_help() {
    for name in [
        "init", "snap", "log", "status", "blame", "diff", "show", "restore", "verify",
    ] {
        match parse_command(name, &strings(&["junk", "-h"])).unwrap() {
            Request::Print(text) => {
                assert!(text.starts_with(&format!("USAGE:\n    snapref {name}")), "{text}");
            }
            other => panic!("unexpected {other:?}"),
        }
    }
}
