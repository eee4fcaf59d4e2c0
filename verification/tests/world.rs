//! Whole-system tests on a working tree that is held in memory: snapshots,
//! restores, walks, refs and the commands on top of them.

use std::collections::BTreeMap;

use snapref::args::{dispatch, parse_command, Request, Start};
use snapref::audit::{FanDir, ObjectFile};
use snapref::commands::{
    cmd_init, cmd_log, cmd_snap, cmd_status, cmd_verify, restore_report,
};
use snapref::compare::{cmd_diff, diff_sides, DiffReply};
use snapref::cli::rel_path;
use snapref::glob::parse_lines;
use snapref::guard::{is_snapped, later_patterns};
use snapref::inspect::{cmd_blame, cmd_show, turn_of_id, Reply};
use snapref::object::{Kind, Objects, Snapshot};
use snapref::restore::{
    set_exec, worktree_changes, Changes, RestoreOutcome, Standing,
};
use snapref::snapshot::{
    file_at, files_of, line_changes, next_turn, stats_between, FileEntry, LoadedFile,
};
use snapref::store::{check_format, verify, RefFile, Store, STORE_DIR};
use snapref::walker::{
    check_name, is_exec, visit, walk, Found, FoundEntry, Visit, WalkStats, WorkFile,
};

/// Base timestamp: 2026-07-12T10:00:00Z.
const T0: i64 = 1_783_850_400;

/// A file on the disk: its bytes and its exec bit. `None` is a symbolic link.
type Disk = BTreeMap<String, Option<(Vec<u8>, bool)>>;

struct World {
    disk: Disk,
    store: Store,
    initialized: bool,
}

/// What a command came to: exit code, standard output, standard error.
struct Outcome {
    code: i32,
    out: Vec<u8>,
    err: String,
}

fn listing(disk: &Disk, prefix: &str) -> Vec<FoundEntry> {
    let mut names: BTreeMap<String, Found> = BTreeMap::new();
    for (rel, file) in disk {
        let Some(rest) = rel.strip_prefix(prefix) else {
            continue;
        };
        match rest.split_once('/') {
            Some((dir, _)) => {
                let below = format!("{prefix}{dir}/");
                if !names.contains_key(dir) {
                    names.insert(dir.to_string(), Found::Dir(Ok(listing(disk, &below))));
                }
            }
            None => {
                let found = match file {
                    Some((_, executable)) => Found::File {
                        executable: *executable,
                    },
                    None => Found::Link,
                };
                names.insert(rest.to_string(), found);
            }
        }
    }
    // Directory listings come in no particular order.
    let mut list: Vec<FoundEntry> = names
        .into_iter()
        .map(|(name, found)| FoundEntry {
            path: format!("/work/{prefix}{name}"),
            name,
            found,
        })
        .collect();
    list.reverse();
    list
}

impl World {
    fn new() -> World {
        World {
            disk: BTreeMap::new(),
            store: Store {
                table: Objects::new(),
                refs: Vec::new(),
                ignore: None,
            },
            initialized: true,
        }
    }

    fn put(&mut self, rel: &str, content: &str) {
        self.disk
            .insert(rel.to_string(), Some((content.as_bytes().to_vec(), false)));
    }

    fn put_bytes(&mut self, rel: &str, content: &[u8]) {
        self.disk
            .insert(rel.to_string(), Some((content.to_vec(), false)));
    }

    fn read(&self, rel: &str) -> String {
        let (bytes, _) = self.disk[rel].as_ref().unwrap();
        String::from_utf8(bytes.clone()).unwrap()
    }

    fn refresh_ignore(&mut self) {
        self.store.ignore = match self.disk.get(".snaprefignore") {
            Some(Some((bytes, _))) => String::from_utf8(bytes.clone()).ok(),
            _ => None,
        };
    }

    fn walk(&mut self) -> Result<(Vec<WorkFile>, WalkStats), String> {
        self.refresh_ignore();
        let patterns = self.store.ignore_patterns();
        walk(&Ok(listing(&self.disk, "")), &patterns)
    }

    fn load(&mut self) -> Vec<LoadedFile> {
        let (files, _) = self.walk().unwrap();
        files
            .into_iter()
            .map(|file| {
                let (bytes, _) = self.disk[&file.rel].clone().unwrap();
                LoadedFile {
                    file,
                    data: Ok(bytes),
                }
            })
            .collect()
    }

    /// The files that the walk does not list and that a restore could touch.
    fn hidden(&mut self, turn: u64, work: &[LoadedFile], full: bool) -> Vec<LoadedFile> {
        let Ok(target) = self.store.snapshot(turn) else {
            return Vec::new();
        };
        let mut rels: Vec<String> = files_of(&self.store, &target)
            .unwrap_or_default()
            .into_iter()
            .map(|e| e.rel)
            .collect();
        if full {
            let patterns = later_patterns(&self.store, &target);
            let (files, _) = walk(&Ok(listing(&self.disk, "")), &patterns).unwrap();
            rels.extend(files.into_iter().map(|f| f.rel));
        }
        rels.sort();
        rels.dedup();
        rels.retain(|rel| work.iter().all(|f| f.file.rel != *rel));
        let disk = &self.disk;
        rels.into_iter()
            .filter_map(|rel| match disk.get(&rel) {
                Some(Some((bytes, executable))) => Some(LoadedFile {
                    file: WorkFile {
                        abs: format!("/work/{rel}"),
                        rel,
                        executable: *executable,
                    },
                    data: Ok(bytes.clone()),
                }),
                _ => None,
            })
            .collect()
    }

    fn take(
        &mut self,
        label: &str,
        agent: &str,
        turn: Option<u64>,
        time: i64,
    ) -> Result<Snapshot, String> {
        let work = self.load();
        snapref::snapshot::take(&mut self.store, &work, label, agent, turn, time)
    }

    fn changes(&mut self, snap: &Snapshot) -> Changes {
        let work = self.load();
        worktree_changes(&self.store, &work, snap).unwrap()
    }

    fn restore(
        &mut self,
        turn: u64,
        paths: &[String],
        force: bool,
        no_backup: bool,
        agent: &str,
        time: i64,
    ) -> Result<RestoreOutcome, String> {
        let work = self.load();
        let hidden = self.hidden(turn, &work, paths.is_empty());
        let mut run = snapref::restore::restore(
            &mut self.store,
            &work,
            &hidden,
            turn,
            paths,
            force,
            no_backup,
            agent,
            time,
        )?;
        while let Some((rel, executable)) = run.next().map(|e| (e.rel.clone(), e.executable)) {
            let now = match self.disk.get(&rel) {
                Some(Some((bytes, x))) => Standing {
                    data: Some(bytes.clone()),
                    executable: Some(*x),
                },
                _ => Standing {
                    data: None,
                    executable: None,
                },
            };
            if let Some(bytes) = run.settle(&self.store, &now)? {
                self.disk.insert(rel, Some((bytes, executable)));
            }
        }
        let (after, _) = self.walk()?;
        let (doomed, outcome) = run.finish(&after);
        for file in doomed {
            self.disk.remove(&file.rel);
        }
        Ok(outcome)
    }

    fn fans(&self) -> Vec<FanDir> {
        let mut fans: Vec<FanDir> = Vec::new();
        for id in self.store.table.added() {
            let data = self.store.table.get(id).unwrap().clone();
            let file = ObjectFile {
                name: id[2..].to_string(),
                data: Ok(data),
            };
            match fans.iter_mut().find(|f| f.name == id[..2]) {
                Some(fan) => fan.files.push(file),
                None => fans.push(FanDir {
                    name: id[..2].to_string(),
                    files: vec![file],
                }),
            }
        }
        fans
    }

    fn execute(&mut self, request: Request, time: i64) -> Result<(Vec<u8>, String), (i32, String)> {
        let fail = |f: snapref::cli::Fail| (f.code, f.msg);
        match request {
            Request::Print(text) => return Ok((text.into_bytes(), String::new())),
            Request::Init => {
                let marker = if self.initialized { Some("1\n") } else { None };
                let created = Store::init(marker).map_err(|e| (1, e))?;
                self.initialized = true;
                let text = cmd_init(created, "/work/.snapref");
                return Ok((text.into_bytes(), String::new()));
            }
            _ => {}
        }
        Store::discover(&[self.initialized]).map_err(|e| (1, e))?;
        let work = self.load();
        let text = match request {
            Request::Snap(o) => cmd_snap(&mut self.store, &work, &o, "", time).map_err(fail)?,
            Request::Log(o) => cmd_log(&self.store, &o).map_err(fail)?,
            Request::Status(json) => cmd_status(&self.store, &work, json).map_err(fail)?,
            Request::Blame(o) => {
                let rel = rel_path(b"/work", b"/work", &o.path).map_err(fail)?;
                let working = match self.disk.get(&rel) {
                    Some(Some((bytes, _))) => Some(bytes.clone()),
                    _ => None,
                };
                cmd_blame(&self.store, &rel, o.at, &working, o.json).map_err(fail)?
            }
            Request::Diff(o) => {
                let (from, to) = diff_sides(&self.store, &o.sides).map_err(fail)?;
                let mut paths = Vec::new();
                for p in &o.paths {
                    paths.push(rel_path(b"/work", b"/work", p).map_err(fail)?);
                }
                match cmd_diff(&self.store, &work, from, to, &paths, o.json).map_err(fail)? {
                    DiffReply::Text(text) => text,
                    DiffReply::Note(note) => return Ok((Vec::new(), note)),
                }
            }
            Request::Show(o) => match cmd_show(&self.store, &o).map_err(fail)? {
                Reply::Text(text) => text,
                Reply::Bytes(bytes) => return Ok((bytes, String::new())),
            },
            Request::Restore(o) => {
                let mut paths = Vec::new();
                for p in &o.paths {
                    paths.push(rel_path(b"/work", b"/work", p).map_err(fail)?);
                }
                let outcome = self
                    .restore(o.turn, &paths, o.force, o.no_backup, "", time)
                    .map_err(|e| (1, e))?;
                let id = self.store.turn_id(o.turn).map_err(|e| (1, e))?;
                restore_report(&outcome, !paths.is_empty(), o.turn, &id)
            }
            Request::Verify => {
                let (notes, outcome) = cmd_verify(&self.store, &self.fans());
                match outcome {
                    Ok(text) => text,
                    Err(f) => return Err((f.code, format!("{notes}snapref: {}", f.msg))),
                }
            }
            _ => unreachable!(),
        };
        Ok((text.into_bytes(), String::new()))
    }

    fn run_at(&mut self, time: i64, args: &[&str]) -> Outcome {
        let args: Vec<String> = args.iter().map(|s| s.to_string()).collect();
        let result = match dispatch(&args) {
            Err(f) => Err((f.code, f.msg)),
            Ok(Start::Print(text)) => Ok((text.into_bytes(), String::new())),
            Ok(Start::Complain(text)) => Err((2, text)),
            Ok(Start::Command { at, .. }) => match parse_command(&args[at], &args[at + 1..]) {
                Ok(request) => self.execute(request, time),
                Err(f) => Err((f.code, f.msg)),
            },
        };
        match result {
            Ok((out, err)) => Outcome { code: 0, out, err },
            Err((code, err)) => Outcome {
                code,
                out: Vec::new(),
                err,
            },
        }
    }

    fn run(&mut self, args: &[&str]) -> Outcome {
        self.run_at(T0, args)
    }
}

fn ok(o: Outcome) -> String {
    assert_eq!(o.code, 0, "stderr: {}", o.err);
    String::from_utf8(o.out).unwrap()
}

fn fails(o: Outcome, code: i32) -> String {
    assert_eq!(o.code, code, "stderr: {}", o.err);
    o.err
}

fn rels(entries: &[FileEntry]) -> Vec<&str> {
    entries.iter().map(|e| e.rel.as_str()).collect()
}

/// A three-turn history used by several tests:
/// turn 1 scaffolds, turn 2 edits + adds, turn 3 deletes + edits again.
fn three_turn_project() -> World {
    let mut w = World::new();
    w.put("src/parser.rs", "fn parse() {\n    todo!()\n}\n");
    w.put("README.md", "# demo\n");
    w.put("old.txt", "obsolete\n");
    ok(w.run_at(
        T0,
        &["snap", "--label", "scaffold parser", "--agent", "demo-agent"],
    ));
    w.put(
        "src/parser.rs",
        "fn parse() {\n    lex();\n    todo!()\n}\n",
    );
    w.put("src/lexer.rs", "fn lex() {}\n");
    ok(w.run_at(
        T0 + 60,
        &["snap", "--label", "add lexer", "--agent", "demo-agent"],
    ));
    w.put(
        "src/parser.rs",
        "fn parse() {\n    lex();\n    build_ast()\n}\n",
    );
    w.disk.remove("old.txt");
    ok(w.run_at(
        T0 + 120,
        &["snap", "--label", "build the AST", "--agent", "demo-agent"],
    ));
    w
}

// ------------------------------------------------------------ snapshots ----

#[test]
fn first_snapshot_records_every_file_as_added() {
    let mut w = World::new();
    w.put("src/main.rs", "fn main() {}\n");
    w.put("README.md", "# demo\nsecond line\n");
    let snap = w.take("initial", "tester", None, 100).unwrap();
    assert_eq!(snap.turn, 1);
    assert_eq!(snap.parent, None);
    assert_eq!(snap.stats.files_added, 2);
    assert_eq!(snap.stats.lines_added, 3);
    assert_eq!(
        rels(&files_of(&w.store, &snap).unwrap()),
        vec!["README.md", "src/main.rs"]
    );
}

#[test]
fn nested_directories_round_trip_through_trees() {
    let mut w = World::new();
    w.put("a/b/c/deep.txt", "deep\n");
    w.put("a/top.txt", "top\n");
    let snap = w.take("", "", None, 0).unwrap();
    let (bytes, exec) = file_at(&w.store, &snap, "a/b/c/deep.txt").unwrap().unwrap();
    assert_eq!(bytes, b"deep\n");
    assert!(!exec);
    assert!(file_at(&w.store, &snap, "a/b/missing.txt").unwrap().is_none());
    assert!(file_at(&w.store, &snap, "a/b").unwrap().is_none()); // a dir, not a file
}

#[test]
fn identical_content_in_two_files_shares_one_blob() {
    let mut w = World::new();
    w.put("one.txt", "same bytes\n");
    w.put("two.txt", "same bytes\n");
    let snap = w.take("", "", None, 0).unwrap();
    let files = files_of(&w.store, &snap).unwrap();
    assert_eq!(files[0].id, files[1].id);
}

#[test]
fn second_snapshot_computes_modify_and_delete_stats() {
    let mut w = World::new();
    w.put("keep.txt", "a\nb\n");
    w.put("gone.txt", "x\ny\nz\n");
    w.take("one", "", None, 1).unwrap();
    w.put("keep.txt", "a\nB\nc\n"); // 1 line changed, 1 added
    w.disk.remove("gone.txt");
    w.put("new.txt", "n\n");
    let snap = w.take("two", "", None, 2).unwrap();
    assert_eq!(snap.turn, 2);
    assert_eq!(snap.stats.files_added, 1);
    assert_eq!(snap.stats.files_modified, 1);
    assert_eq!(snap.stats.files_deleted, 1);
    assert_eq!(snap.stats.lines_added, 2 + 1); // keep.txt +2, new.txt +1
    assert_eq!(snap.stats.lines_removed, 1 + 3); // keep.txt -1, gone.txt -3
}

#[test]
fn unchanged_tree_still_records_a_turn_with_empty_stats() {
    let mut w = World::new();
    w.put("f.txt", "same\n");
    let first = w.take("", "", None, 1).unwrap();
    let second = w.take("", "", None, 2).unwrap();
    assert_eq!(second.turn, 2);
    assert_eq!(second.tree, first.tree); // whole tree deduplicated
    assert!(second.stats.is_empty());
}

#[test]
fn turn_override_must_move_forward() {
    let mut w = World::new();
    w.put("f.txt", "1\n");
    // Turns are 1-based everywhere; 0 is rejected up front.
    let err = w.take("", "", Some(0), 0).unwrap_err();
    assert!(err.contains("start at 1"), "got: {err}");
    w.take("", "", Some(5), 0).unwrap();
    let err = w.take("", "", Some(5), 0).unwrap_err();
    assert!(err.contains("not greater"), "got: {err}");
    let snap = w.take("", "", Some(9), 0).unwrap();
    assert_eq!(snap.turn, 9);
    assert_eq!(w.store.latest(), Some(9));
}

#[test]
fn executable_bit_is_recorded_in_the_tree() {
    let mut w = World::new();
    w.disk.insert(
        "run.sh".to_string(),
        Some((b"#!/bin/sh\n".to_vec(), true)),
    );
    let snap = w.take("", "", None, 0).unwrap();
    let (_, exec) = file_at(&w.store, &snap, "run.sh").unwrap().unwrap();
    assert!(exec);
}

#[test]
fn a_mode_change_alone_counts_as_a_modified_file() {
    let mut w = World::new();
    w.put("run.sh", "x\n");
    w.take("", "", None, 1).unwrap();
    w.disk
        .insert("run.sh".to_string(), Some((b"x\n".to_vec(), true)));
    let snap = w.take("", "", None, 2).unwrap();
    assert_eq!(snap.stats.files_modified, 1);
    assert_eq!(snap.stats.lines_added, 0);
    let out = ok(w.run(&["diff", "1", "2"]));
    assert_eq!(out, "mode changed: run.sh (100644 -> 100755)\n");
}

#[test]
fn binary_files_count_no_lines() {
    let mut w = World::new();
    w.put_bytes("logo.bin", b"a\n\0b\n");
    let snap = w.take("", "", None, 1).unwrap();
    assert_eq!(snap.stats.files_added, 1);
    assert_eq!(snap.stats.lines_added, 0);
}

#[test]
fn an_unreadable_file_stops_a_snapshot() {
    let mut w = World::new();
    w.put("a.txt", "a\n");
    let mut work = w.load();
    work[0].data = Err("Permission denied".to_string());
    let err = snapref::snapshot::take(&mut w.store, &work, "", "", None, 0).unwrap_err();
    assert_eq!(err, "cannot read /work/a.txt: Permission denied");
    assert_eq!(w.store.latest(), None);
}

#[test]
fn a_path_through_a_file_is_a_conflict() {
    let mut w = World::new();
    w.put("a", "file\n");
    w.put("b", "file\n");
    let mut work = w.load();
    work[1].file.rel = "a/b".to_string();
    let err = snapref::snapshot::take(&mut w.store, &work, "", "", None, 0).unwrap_err();
    assert_eq!(err, "path conflict at component 'a'");
}

#[test]
fn a_recorded_snapshot_reads_back_and_is_clean() {
    let mut w = World::new();
    w.put("a.txt", "one\n");
    w.put("a/b.txt", "two\n");
    w.put("a-b.txt", "three\n");
    let snap = w.take(" la\nbel ", "ag\rent", None, 7).unwrap();
    let again = w.store.snapshot(1).unwrap();
    assert_eq!(again.id, snap.id);
    assert_eq!(again.label, "la bel");
    assert_eq!(again.agent, "ag ent");
    assert_eq!(again.time, 7);
    let files = files_of(&w.store, &snap).unwrap();
    assert_eq!(rels(&files), vec!["a-b.txt", "a.txt", "a/b.txt"]);
    assert!(w.changes(&snap).is_empty());
    // Earlier history stays as it was.
    w.put("a.txt", "changed\n");
    w.take("", "", None, 8).unwrap();
    let (bytes, _) = file_at(&w.store, &snap, "a.txt").unwrap().unwrap();
    assert_eq!(bytes, b"one\n");
    assert_eq!(w.store.snapshot(1).unwrap().id, snap.id);
    assert_eq!(w.store.snapshot(2).unwrap().parent, Some(snap.id));
}

#[test]
fn next_turns_follow_the_latest() {
    assert_eq!(next_turn(None, None), Ok(1));
    assert_eq!(next_turn(Some(4), None), Ok(5));
    assert_eq!(next_turn(Some(4), Some(9)), Ok(9));
    assert_eq!(
        next_turn(Some(4), Some(4)),
        Err("requested turn 4 is not greater than the latest turn 4".to_string())
    );
}

#[test]
fn line_changes_are_counted_between_texts() {
    assert_eq!(line_changes("a\nb\n", "a\nB\nc\n"), (2, 1));
    assert_eq!(line_changes("", ""), (0, 0));
}

#[test]
fn a_tree_that_holds_itself_is_refused() {
    let mut w = World::new();
    w.put("f", "x\n");
    let mut snap = w.take("", "", None, 0).unwrap();
    let id = "00000000000000000000000000000000000000aa".to_string();
    let text = format!("040000 {id} loop\n");
    let mut data = format!("tree {}\0", text.len()).into_bytes();
    data.extend_from_slice(text.as_bytes());
    w.store.table.load(id.clone(), data);
    snap.tree = id.clone();
    assert_eq!(
        files_of(&w.store, &snap).unwrap_err(),
        format!("tree {id} is nested too deeply")
    );
}

// -------------------------------------------------------------- restore ----

#[test]
fn status_reports_added_modified_and_deleted() {
    let mut w = World::new();
    w.put("stay.txt", "same\n");
    w.put("edit.txt", "v1\n");
    w.put("gone.txt", "bye\n");
    let snap = w.take("", "", None, 0).unwrap();
    w.put("edit.txt", "v2\n");
    w.put("fresh.txt", "new\n");
    w.disk.remove("gone.txt");
    let ch = w.changes(&snap);
    assert_eq!(ch.added, vec!["fresh.txt"]);
    assert_eq!(ch.modified, vec!["edit.txt"]);
    assert_eq!(ch.deleted, vec!["gone.txt"]);
    assert_eq!(ch.total(), 3);
}

#[test]
fn clean_tree_is_reported_clean() {
    let mut w = World::new();
    w.put("f.txt", "x\n");
    let snap = w.take("", "", None, 0).unwrap();
    assert!(w.changes(&snap).is_empty());
}

#[test]
fn full_restore_rewrites_deletes_and_recreates() {
    let mut w = World::new();
    w.put("a.txt", "a-v1\n");
    w.put("sub/b.txt", "b-v1\n");
    w.take("one", "", None, 1).unwrap();
    w.put("a.txt", "a-v2\n");
    w.disk.remove("sub/b.txt");
    w.put("extra/new.txt", "later\n");
    w.take("two", "", None, 2).unwrap();

    let out = w.restore(1, &[], false, false, "", 3).unwrap();
    assert_eq!(out.backup, None); // tree matched turn 2, nothing to back up
    assert_eq!(w.read("a.txt"), "a-v1\n");
    assert_eq!(w.read("sub/b.txt"), "b-v1\n"); // deleted file is back
    assert!(!w.disk.contains_key("extra/new.txt"));
    assert_eq!(out.written, 2);
    assert_eq!(out.deleted, 1);
}

#[test]
fn dirty_tree_gets_an_automatic_backup_turn() {
    let mut w = World::new();
    w.put("f.txt", "v1\n");
    w.take("one", "", None, 1).unwrap();
    w.put("f.txt", "uncommitted work\n");
    let out = w.restore(1, &[], false, false, "", 2).unwrap();
    assert_eq!(out.backup, Some(2));
    assert_eq!(w.read("f.txt"), "v1\n");
    // The backup turn preserves the discarded-looking content.
    let backup_snap = w.store.snapshot(2).unwrap();
    let (bytes, _) = file_at(&w.store, &backup_snap, "f.txt").unwrap().unwrap();
    assert_eq!(bytes, b"uncommitted work\n");
    assert!(
        backup_snap.label.contains("auto: backup"),
        "got: {}",
        backup_snap.label
    );
}

#[test]
fn no_backup_on_a_dirty_tree_requires_force() {
    let mut w = World::new();
    w.put("f.txt", "v1\n");
    w.take("", "", None, 1).unwrap();
    w.put("f.txt", "dirty\n");
    let err = w.restore(1, &[], false, true, "", 2).unwrap_err();
    assert!(err.contains("--force"), "got: {err}");
    assert_eq!(w.read("f.txt"), "dirty\n"); // untouched on refusal
    let out = w.restore(1, &[], true, true, "", 2).unwrap();
    assert_eq!(out.backup, None);
    assert_eq!(w.read("f.txt"), "v1\n");
}

#[test]
fn path_scoped_restore_leaves_other_files_alone() {
    let mut w = World::new();
    w.put("a.txt", "a-v1\n");
    w.put("b.txt", "b-v1\n");
    w.take("", "", None, 1).unwrap();
    w.put("a.txt", "a-v2\n");
    w.put("b.txt", "b-v2\n");
    w.take("", "", None, 2).unwrap();
    let out = w
        .restore(1, &["a.txt".to_string()], false, false, "", 3)
        .unwrap();
    assert_eq!(w.read("a.txt"), "a-v1\n");
    assert_eq!(w.read("b.txt"), "b-v2\n");
    assert_eq!(out.written, 1);
    assert_eq!(out.deleted, 0);
}

#[test]
fn a_directory_path_restores_its_whole_prefix() {
    let mut w = World::new();
    w.put("src/a.rs", "a-v1\n");
    w.put("src/deep/b.rs", "b-v1\n");
    w.put("other.txt", "o-v1\n");
    w.take("", "", None, 1).unwrap();
    w.put("src/a.rs", "a-v2\n");
    w.put("src/deep/b.rs", "b-v2\n");
    w.put("other.txt", "o-v2\n");
    w.take("", "", None, 2).unwrap();
    w.restore(1, &["src".to_string()], false, false, "", 3)
        .unwrap();
    assert_eq!(w.read("src/a.rs"), "a-v1\n");
    assert_eq!(w.read("src/deep/b.rs"), "b-v1\n");
    assert_eq!(w.read("other.txt"), "o-v2\n");
}

#[test]
fn unmatched_path_fails_without_touching_anything() {
    let mut w = World::new();
    w.put("f.txt", "v1\n");
    w.take("", "", None, 1).unwrap();
    let err = w
        .restore(1, &["nope.txt".to_string()], false, false, "", 2)
        .unwrap_err();
    assert!(err.contains("no files in turn 1"), "got: {err}");
    assert_eq!(w.read("f.txt"), "v1\n");
}

#[test]
fn restore_leaves_identical_and_ignored_files_untouched() {
    let mut w = World::new();
    w.put("same.txt", "s\n");
    w.put("edit.txt", "v1\n");
    w.take("", "", None, 1).unwrap();
    w.put("edit.txt", "v2\n");
    w.put(".snaprefignore", "*.log\n");
    w.put("noise.log", "kept\n");
    w.take("", "", None, 2).unwrap();
    let out = w.restore(1, &[], false, false, "", 3).unwrap();
    assert_eq!(out.written, 1);
    // The ignore file itself goes; what it covered was not seen by the walk.
    assert_eq!(out.deleted, 1);
    assert_eq!(w.read("noise.log"), "kept\n");
}

/// Turn 1 tracks `notes.log`; since turn 2 an ignore rule hides it, and it has
/// been edited.
fn hidden_edit() -> World {
    let mut w = World::new();
    w.put("notes.log", "old\n");
    w.put("a.txt", "a\n");
    w.take("", "", None, 1).unwrap();
    w.put(".snaprefignore", "*.log\n");
    w.take("", "", None, 2).unwrap();
    w.put("notes.log", "precious\n");
    w
}

#[test]
fn a_hidden_file_is_backed_up_before_it_is_overwritten() {
    for paths in [vec![], vec!["notes.log".to_string()]] {
        let mut w = hidden_edit();
        let out = w.restore(1, &paths, false, false, "", 3).unwrap();
        assert_eq!(out.backup, Some(3));
        assert_eq!(w.read("notes.log"), "old\n");
        let backup = w.store.snapshot(3).unwrap();
        assert_eq!(
            file_at(&w.store, &backup, "notes.log").unwrap(),
            Some((b"precious\n".to_vec(), false))
        );
        // The rest of the working tree is in the backup turn too.
        assert!(file_at(&w.store, &backup, "a.txt").unwrap().is_some());
    }

    // A path that does not select it leaves it alone, without a backup.
    let mut w = hidden_edit();
    let out = w
        .restore(1, &["a.txt".to_string()], false, false, "", 3)
        .unwrap();
    assert_eq!((out.backup, out.written), (None, 0));
    assert_eq!(w.read("notes.log"), "precious\n");
}

#[test]
fn a_hidden_file_is_not_discarded_without_force() {
    let mut w = hidden_edit();
    let err = w.restore(1, &[], false, true, "", 3).unwrap_err();
    assert!(err.contains("--force"), "got: {err}");
    assert_eq!(w.read("notes.log"), "precious\n");
    let out = w.restore(1, &[], true, true, "", 3).unwrap();
    assert_eq!(out.backup, None);
    assert_eq!(w.read("notes.log"), "old\n");
}

#[test]
fn a_hidden_file_that_a_snapshot_holds_needs_no_backup() {
    let mut w = hidden_edit();
    w.put("notes.log", "old\n");
    let out = w.restore(1, &[], false, false, "", 3).unwrap();
    assert_eq!(out.backup, None);
    assert!(is_snapped(
        &w.store,
        &snapref::object::id_of(Kind::Blob, b"old\n")
    ));
    assert!(!is_snapped(
        &w.store,
        &snapref::object::id_of(Kind::Blob, b"precious\n")
    ));
}

#[test]
fn a_file_that_the_target_no_longer_hides_is_backed_up_before_it_is_deleted() {
    let mut w = World::new();
    w.put(".snaprefignore", "*.tmp\n");
    w.put("a.txt", "a\n");
    w.take("", "", None, 1).unwrap();
    w.put(".snaprefignore", "*.log\n");
    w.take("", "", None, 2).unwrap();
    w.put("notes.log", "precious\n");
    let out = w.restore(1, &[], false, false, "", 3).unwrap();
    assert_eq!((out.written, out.deleted, out.backup), (1, 1, Some(3)));
    assert!(!w.disk.contains_key("notes.log"));
    let backup = w.store.snapshot(3).unwrap();
    assert_eq!(
        file_at(&w.store, &backup, "notes.log").unwrap(),
        Some((b"precious\n".to_vec(), false))
    );
}

#[test]
fn what_was_not_seen_is_neither_overwritten_nor_deleted() {
    let mut w = hidden_edit();
    let work = w.load();
    let mut run =
        snapref::restore::restore(&mut w.store, &work, &[], 1, &[], false, false, "", 3).unwrap();
    let occupied = Standing {
        data: Some(b"precious\n".to_vec()),
        executable: Some(false),
    };
    while let Some(rel) = run.next().map(|e| e.rel.clone()) {
        if rel == "notes.log" {
            let err = run.settle(&w.store, &occupied).unwrap_err();
            assert_eq!(
                err,
                "refusing to overwrite notes.log: it was not seen when the restore began"
            );
            break;
        }
        let now = Standing {
            data: Some(b"a\n".to_vec()),
            executable: Some(false),
        };
        assert_eq!(run.settle(&w.store, &now).unwrap(), None);
    }
    let stranger = WorkFile {
        rel: "stranger".to_string(),
        abs: "/work/stranger".to_string(),
        executable: false,
    };
    assert!(run.finish(&[stranger]).0.is_empty());
}

#[test]
fn a_restored_exec_bit_is_written_back() {
    let mut w = World::new();
    w.disk
        .insert("run.sh".to_string(), Some((b"x\n".to_vec(), true)));
    w.take("", "", None, 1).unwrap();
    w.put("run.sh", "x\n");
    let out = w.restore(1, &[], false, false, "", 2).unwrap();
    assert_eq!((out.written, out.backup), (1, Some(2)));
    assert_eq!(w.disk["run.sh"], Some((b"x\n".to_vec(), true)));
    assert_eq!(set_exec(0o644, true), 0o755);
    assert_eq!(set_exec(0o755, false), 0o644);
    assert!(is_exec(0o100) && !is_exec(0o644));
}

#[test]
fn restoring_an_unknown_turn_fails() {
    let mut w = World::new();
    let err = w.restore(3, &[], false, false, "", 2).unwrap_err();
    assert_eq!(err, "unknown turn 3 (see 'snapref log')");
}

// ---------------------------------------------------------------- store ----

#[test]
fn init_creates_layout_and_is_idempotent() {
    assert_eq!(Store::init(None), Ok(true));
    assert_eq!(Store::init(Some("1\n")), Ok(false));
    assert_eq!(STORE_DIR, ".snapref");
}

#[test]
fn discover_walks_up_from_a_subdirectory() {
    assert_eq!(Store::discover(&[false, false, false, true, true]), Ok(3));
}

#[test]
fn discover_fails_cleanly_outside_any_store() {
    let err = Store::discover(&[false, false]).unwrap_err();
    assert!(err.contains("snapref init"), "got: {err}");
}

#[test]
fn turn_refs_are_append_only_and_sorted_numerically() {
    let mut w = World::new();
    let id = snapref::object::write(&mut w.store.table, Kind::Blob, b"x");
    w.store.write_turn(2, &id).unwrap();
    w.store.write_turn(10, &id).unwrap();
    w.store.write_turn(1, &id).unwrap();
    assert_eq!(w.store.turns(), vec![1, 2, 10]); // numeric, not lexicographic
    assert_eq!(w.store.latest(), Some(10));
    assert!(w
        .store
        .write_turn(2, &id)
        .unwrap_err()
        .contains("already recorded"));
    assert_eq!(
        w.store.snapshot(2).unwrap_err(),
        "turn 2 ref points at a blob object"
    );
}

#[test]
fn unknown_turn_produces_a_helpful_error() {
    let w = World::new();
    let err = w.store.turn_id(42).unwrap_err();
    assert!(err.contains("unknown turn 42"), "got: {err}");
}

#[test]
fn an_unsupported_format_is_named() {
    assert_eq!(check_format(" 1 \n"), Ok(()));
    assert_eq!(
        check_format("2\n"),
        Err("unsupported store format '2' (this snapref understands format 1)".to_string())
    );
    assert!(Store::init(Some("9")).is_err());
}

#[test]
fn ref_files_that_are_no_turns_do_not_count() {
    let mut w = World::new();
    w.store.refs.push(RefFile {
        name: "README".to_string(),
        text: Some("x".to_string()),
    });
    w.store.refs.push(RefFile {
        name: "3".to_string(),
        text: None,
    });
    assert_eq!(w.store.turns(), vec![3]);
    assert_eq!(
        w.store.turn_id(3).unwrap_err(),
        "unknown turn 3 (see 'snapref log')"
    );
}

#[test]
fn verify_reports_each_kind_of_problem() {
    let mut w = World::new();
    w.put("a.txt", "a\n");
    let snap = w.take("", "", None, 1).unwrap();
    let report = verify(&w.store, &w.fans()).unwrap();
    assert_eq!(report.problems.len(), 0);
    assert_eq!(
        (report.blobs, report.trees, report.snapshots, report.refs),
        (1, 1, 1, 1)
    );
    assert_eq!(report.total(), 3);

    // Without the blob's file the tree is incomplete.
    let blob = files_of(&w.store, &snap).unwrap()[0].id.clone();
    let mut fans = w.fans();
    for fan in &mut fans {
        let prefix = fan.name.clone();
        fan.files.retain(|f| format!("{prefix}{}", f.name) != blob);
    }
    let report = verify(&w.store, &fans).unwrap();
    assert_eq!(
        report.problems,
        vec![format!("turn 1 references missing blob {blob} (a.txt)")]
    );

    // An unreadable file, a corrupt one, and one that does not parse.
    let junk = b"junk".to_vec();
    let junk_id = snapref::sha1::hex(&junk);
    let fans = vec![FanDir {
        name: junk_id[..2].to_string(),
        files: vec![
            ObjectFile {
                name: junk_id[2..].to_string(),
                data: Ok(junk),
            },
            ObjectFile {
                name: "zz".to_string(),
                data: Err("Permission denied".to_string()),
            },
            ObjectFile {
                name: "00".to_string(),
                data: Ok(Vec::new()),
            },
        ],
    }];
    let report = verify(&w.store, &fans).unwrap();
    let p = &junk_id[..2];
    assert!(report
        .problems
        .contains(&format!("object {p}00 is corrupt (content hash mismatch)")));
    assert!(report
        .problems
        .contains(&format!("object {junk_id} has no header terminator")));
    assert!(report
        .problems
        .contains(&format!("cannot read object {p}zz: Permission denied")));
    assert!(report
        .problems
        .contains(&format!("turn 1 points at missing object {}", snap.id)));

    // A turn that points at something else, and a parent that is gone.
    w.store.write_turn(2, &blob).unwrap();
    let report = verify(&w.store, &w.fans()).unwrap();
    assert_eq!(report.problems, vec!["turn 2 points at a blob object"]);
}

#[test]
fn verify_misses_no_parent_and_no_tree() {
    let mut w = World::new();
    w.put("a.txt", "a\n");
    let first = w.take("", "", None, 1).unwrap();
    w.put("a.txt", "b\n");
    w.take("", "", None, 2).unwrap();
    w.store.refs.remove(0);
    let without = |w: &World, id: &str| {
        let mut fans = w.fans();
        for fan in &mut fans {
            let prefix = fan.name.clone();
            fan.files.retain(|f| format!("{prefix}{}", f.name) != id);
        }
        verify(&w.store, &fans).unwrap().problems
    };
    assert_eq!(
        without(&w, &first.id),
        vec![format!("turn 2 parent {} is missing", first.id)]
    );
    let tree = w.store.snapshot(2).unwrap().tree;
    assert_eq!(
        without(&w, &tree),
        vec![format!("turn 2 references missing tree {tree}")]
    );
    // The first snapshot is checked though no turn names it any more.
    assert_eq!(without(&w, "none"), Vec::<String>::new());
    assert_eq!(
        without(&w, &first.tree),
        vec![format!(
            "snapshot {} references missing tree {}",
            first.id, first.tree
        )]
    );
    let blob = files_of(&w.store, &first).unwrap()[0].id.clone();
    assert_eq!(
        without(&w, &blob),
        vec![format!(
            "snapshot {} references missing blob {blob} (a.txt)",
            first.id
        )]
    );
}

// --------------------------------------------------------------- walker ----

fn found_rels(w: &mut World) -> Vec<String> {
    let (files, _) = w.walk().unwrap();
    files.into_iter().map(|f| f.rel).collect()
}

#[test]
fn files_come_back_sorted_by_relative_path() {
    let mut w = World::new();
    w.put("b.txt", "b");
    w.put("a/z.txt", "z");
    w.put("a/a.txt", "a");
    assert_eq!(found_rels(&mut w), vec!["a/a.txt", "a/z.txt", "b.txt"]);
}

#[test]
fn git_and_snapref_are_skipped_at_any_depth() {
    let mut w = World::new();
    w.put(".git/config", "x");
    w.put("sub/.git/config", "x");
    w.put(".snapref/objects/ab/cd", "x");
    w.put("kept.txt", "k");
    let files = found_rels(&mut w);
    assert_eq!(files.len(), 1);
    assert_eq!(files[0], "kept.txt");
}

#[test]
fn heavy_build_directories_are_excluded_by_default() {
    let mut w = World::new();
    w.put("node_modules/pkg/index.js", "x");
    w.put("target/debug/bin", "x");
    w.put("src/main.rs", "fn main() {}");
    let (files, stats) = w.walk().unwrap();
    assert_eq!(files.len(), 1);
    assert_eq!(files[0].rel, "src/main.rs");
    assert_eq!(stats.excluded, 2);
}

#[test]
fn dotfiles_are_included_by_default() {
    // Agents edit .gitignore and .env.example; restore must round-trip them.
    let mut w = World::new();
    w.put(".gitignore", "/target\n");
    w.put(".config/settings.toml", "k = 1\n");
    assert_eq!(
        found_rels(&mut w),
        vec![".config/settings.toml", ".gitignore"]
    );
}

#[test]
fn ignore_patterns_prune_files_and_directories() {
    let mut w = World::new();
    w.put("keep.rs", "k");
    w.put("scratch.log", "s");
    w.put("tmp/deep/file.txt", "t");
    let pats = parse_lines("*.log\ntmp/\n");
    let (files, stats) = walk(&Ok(listing(&w.disk, "")), &pats).unwrap();
    assert_eq!(files.len(), 1);
    assert_eq!(files[0].rel, "keep.rs");
    assert_eq!(stats.excluded, 2); // one file, one pruned directory
}

#[test]
fn symlinks_are_skipped_and_counted() {
    let mut w = World::new();
    w.put("real.txt", "r");
    w.disk.insert("link.txt".to_string(), None);
    let (files, stats) = w.walk().unwrap();
    assert_eq!(files.len(), 1);
    assert_eq!(stats.symlinks, 1);
}

#[test]
fn executable_bit_is_detected() {
    let mut w = World::new();
    w.disk.insert(
        "run.sh".to_string(),
        Some((b"#!/bin/sh\n".to_vec(), true)),
    );
    w.put("data.txt", "d");
    let (files, _) = w.walk().unwrap();
    let by_rel: BTreeMap<&str, bool> = files
        .iter()
        .map(|f| (f.rel.as_str(), f.executable))
        .collect();
    assert!(by_rel["run.sh"]);
    assert!(!by_rel["data.txt"]);
}

#[test]
fn what_cannot_be_walked_is_an_error() {
    let entry = |name: &str, found: Found| FoundEntry {
        name: name.to_string(),
        path: format!("/work/{name}"),
        found,
    };
    let bad = Ok(vec![entry("a\nb", Found::File { executable: false })]);
    assert_eq!(
        walk(&bad, &[]).unwrap_err(),
        "file name containing a newline is not supported: /work/a\nb"
    );
    let lost = Ok(vec![entry("x", Found::Unknown("gone".to_string()))]);
    assert_eq!(walk(&lost, &[]).unwrap_err(), "cannot stat /work/x: gone");
    let hidden = Ok(vec![entry(".git", Found::Unknown("gone".to_string()))]);
    assert!(walk(&hidden, &[]).unwrap().0.is_empty());
    let closed = Ok(vec![entry(
        "d",
        Found::Dir(Err("cannot read /work/d: denied".to_string())),
    )]);
    assert_eq!(
        walk(&closed, &[]).unwrap_err(),
        "cannot read /work/d: denied"
    );
    assert_eq!(
        walk(&Err("cannot read /work: denied".to_string()), &[]).unwrap_err(),
        "cannot read /work: denied"
    );
    assert!(check_name("fine", "/work/fine").is_ok());
    assert!(check_name("not\nfine", "/p").is_err());
}

#[test]
fn pruned_directories_need_no_listing() {
    let entry = |name: &str, found: Found| FoundEntry {
        name: name.to_string(),
        path: format!("/work/{name}"),
        found,
    };
    let pats = parse_lines("tmp/\n");
    let root = Ok(vec![
        entry("target", Found::Dir(Err("not read".to_string()))),
        entry("tmp", Found::Dir(Err("not read".to_string()))),
        entry("a", Found::File { executable: true }),
    ]);
    let (files, stats) = walk(&root, &pats).unwrap();
    assert_eq!(files.len(), 1);
    assert_eq!(files[0].abs, "/work/a");
    assert_eq!(
        stats,
        WalkStats {
            symlinks: 0,
            excluded: 2
        }
    );
    assert_eq!(visit("target", "x/target", false, true, &pats), Visit::Exclude);
    assert_eq!(visit("target", "x/target", true, false, &pats), Visit::CountLink);
    assert_eq!(visit(".git", "x/.git", true, false, &pats), Visit::Skip);
    assert_eq!(visit("tmp", "x/tmp", false, true, &pats), Visit::Exclude);
    assert_eq!(visit("tmp", "x/tmp", false, false, &pats), Visit::Take);
    assert_eq!(visit("src", "src", false, true, &pats), Visit::Enter);
}

// ------------------------------------------------------------- commands ----

#[test]
fn version_and_help_are_stable_interfaces() {
    let mut w = World::new();
    let out = ok(w.run(&["--version"]));
    assert_eq!(out.trim(), "snapref 0.1.0");
    let help = ok(w.run(&["--help"]));
    assert!(help.contains("COMMANDS:"));
    assert!(help.contains("blame"));
    assert!(help.contains("SNAPREF_TIME"));
    // No command at all is a usage error but still prints the help.
    let out = w.run(&[]);
    assert_eq!(out.code, 2);
    assert_eq!(out.err, help);
}

#[test]
fn init_is_idempotent_and_snap_reports_turn_stats() {
    let mut w = World::new();
    w.initialized = false;
    let first = ok(w.run(&["init"]));
    assert!(
        first.contains("initialized empty snapref store"),
        "got: {first}"
    );
    let again = ok(w.run(&["init"]));
    assert!(again.contains("already initialized"), "got: {again}");

    w.put("a.txt", "one\ntwo\n");
    w.put("sub/b.txt", "three\n");
    let snapped = ok(w.run(&["snap", "--label", "first"]));
    assert!(
        snapped.contains("turn 1 snapped") && snapped.contains("+2 ~0 -0 files, +3 -0 lines"),
        "got: {snapped}"
    );

    w.put("a.txt", "one\nTWO\n");
    let snapped = ok(w.run(&["snap", "--json"]));
    assert!(snapped.contains("\"turn\":2"), "got: {snapped}");
    assert!(snapped.contains("\"files_modified\":1"), "got: {snapped}");
    assert!(snapped.contains("\"lines_added\":1"), "got: {snapped}");
    assert!(
        snapped.contains("\"time\":\"2026-07-12T10:00:00Z\""),
        "got: {snapped}"
    );
    assert!(snapped.contains("\"parent_turn\":1"), "got: {snapped}");
}

#[test]
fn unchanged_turns_are_recorded_and_status_tracks_dirtiness() {
    let mut w = World::new();
    w.put("f.txt", "same\n");
    ok(w.run(&["snap", "--label", "one"]));

    // A no-op turn still gets a number; turn alignment is the contract.
    let snapped = ok(w.run(&["snap", "--label", "agent did nothing"]));
    assert!(snapped.contains("turn 2 snapped"), "got: {snapped}");
    assert!(
        snapped.contains("no changes since turn 1"),
        "got: {snapped}"
    );

    let clean = ok(w.run(&["status"]));
    assert!(
        clean.contains("working tree matches turn 2"),
        "got: {clean}"
    );

    w.put("f.txt", "edited\n");
    w.put("new.txt", "fresh\n");
    let dirty = ok(w.run(&["status"]));
    assert!(dirty.contains("  modified  f.txt"), "got: {dirty}");
    assert!(dirty.contains("  added     new.txt"), "got: {dirty}");
    assert!(
        dirty.contains("2 change(s): 1 added, 1 modified, 0 deleted"),
        "got: {dirty}"
    );

    let json = ok(w.run(&["status", "--json"]));
    assert!(json.contains("\"clean\":false"), "got: {json}");
    assert!(json.contains("\"modified\":[\"f.txt\"]"), "got: {json}");
}

#[test]
fn log_lists_turns_newest_first_with_stats_and_labels() {
    let mut w = three_turn_project();
    let log = ok(w.run(&["log"]));
    let lines: Vec<&str> = log.lines().collect();
    assert_eq!(lines.len(), 3, "got: {log}");
    assert!(lines[0].starts_with("turn 3"), "got: {log}");
    assert!(lines[2].starts_with("turn 1"), "got: {log}");
    assert!(lines[0].contains("demo-agent: build the AST"), "got: {log}");
    assert!(lines[1].contains("+1 ~1 -0"), "got: {log}"); // turn 2 added lexer, edited parser
    assert!(lines[0].contains("2026-07-12T10:02:00Z"), "got: {log}");

    let limited = ok(w.run(&["log", "--limit", "1"]));
    assert_eq!(limited.lines().count(), 1);

    let json = ok(w.run(&["log", "--json"]));
    assert!(json.contains("\"turns\":[{\"turn\":3"), "got: {json}");
    assert!(
        json.contains("\"label\":\"scaffold parser\""),
        "got: {json}"
    );
}

#[test]
fn blame_attributes_each_line_to_its_turn_and_the_working_tree() {
    let mut w = three_turn_project();
    // Add an uncommitted line on top of the three snapped turns.
    w.put(
        "src/parser.rs",
        "fn parse() {\n    lex();\n    build_ast()\n}\n// wip note\n",
    );
    let blame = ok(w.run(&["blame", "src/parser.rs"]));
    let lines: Vec<&str> = blame.lines().collect();
    assert_eq!(lines.len(), 5, "got: {blame}");
    assert!(lines[0].starts_with("turn 1"), "got: {blame}"); // fn parse() {
    assert!(lines[1].starts_with("turn 2"), "got: {blame}"); // lex();
    assert!(lines[2].starts_with("turn 3"), "got: {blame}"); // build_ast()
    assert!(lines[3].starts_with("turn 1"), "got: {blame}"); // }
    assert!(lines[4].starts_with("wt"), "got: {blame}"); // // wip note
    assert!(lines[4].contains("(not snapped)"), "got: {blame}");
    assert!(lines[1].contains("add lexer"), "got: {blame}");
    assert_eq!(
        lines[1],
        "turn 2 | 2026-07-12T10:01:00Z | add lexer       | 2 |     lex();"
    );
    assert_eq!(
        lines[4],
        "wt     |                      | (not snapped)   | 5 | // wip note"
    );

    let json = ok(w.run(&["blame", "src/parser.rs", "--json"]));
    assert!(json.contains("\"line\":2,\"turn\":2"), "got: {json}");
    assert!(json.contains("\"turn\":null"), "got: {json}"); // the wt line
}

#[test]
fn blame_at_turn_ignores_newer_history_and_binary_files_are_refused() {
    let mut w = three_turn_project();
    let blame = ok(w.run(&["blame", "src/parser.rs", "--at", "2"]));
    assert!(blame.contains("todo!()"), "got: {blame}");
    assert!(!blame.contains("build_ast"), "got: {blame}");

    // Unknown turn is an operational error, not a panic.
    let err = fails(w.run(&["blame", "src/parser.rs", "--at", "99"]), 1);
    assert!(err.contains("unknown turn 99"), "got: {err}");

    // Binary files cannot be blamed.
    w.put_bytes("logo.bin", b"PNG\x00fake");
    ok(w.run(&["snap", "--label", "add binary"]));
    let err = fails(w.run(&["blame", "logo.bin"]), 1);
    assert!(err.contains("binary"), "got: {err}");

    // A path with no history at all.
    let err = fails(w.run(&["blame", "never-existed.txt"]), 1);
    assert!(err.contains("no history"), "got: {err}");

    // One that is gone, or came later.
    let err = fails(w.run(&["blame", "old.txt"]), 1);
    assert_eq!(
        err,
        "old.txt is not in the working tree; use --at TURN to blame a past version"
    );
    let err = fails(w.run(&["blame", "src/lexer.rs", "--at", "1"]), 1);
    assert_eq!(err, "no history for src/lexer.rs before or at turn 1");
}

#[test]
fn blame_reads_invalid_utf8_lossily() {
    let mut w = World::new();
    w.put_bytes("f", b"ok\nb\xffd\n");
    ok(w.run(&["snap"]));
    let blame = ok(w.run(&["blame", "f"]));
    assert!(blame.contains("| 2 | b\u{fffd}d"), "got: {blame}");
}

#[test]
fn diff_renders_unified_hunks_between_turns_and_the_working_tree() {
    let mut w = three_turn_project();
    let out = ok(w.run(&["diff", "1", "3"]));
    assert!(out.contains("--- turn 1:src/parser.rs"), "got: {out}");
    assert!(out.contains("+++ turn 3:src/parser.rs"), "got: {out}");
    assert!(out.contains("-    todo!()"), "got: {out}");
    assert!(out.contains("+    lex();"), "got: {out}");
    assert!(out.contains("--- /dev/null"), "got: {out}"); // lexer.rs added
    assert!(out.contains("+++ /dev/null"), "got: {out}"); // old.txt deleted

    // Default: latest turn vs working tree; clean tree means no output.
    let out = w.run(&["diff"]);
    assert_eq!(out.code, 0);
    assert!(out.out.is_empty(), "expected no diff output");
    assert!(out.err.contains("no differences between turn 3 and wt"));

    w.put("src/parser.rs", "fn parse() {}\n");
    let out = ok(w.run(&["diff", "--path", "src/parser.rs"]));
    assert!(out.contains("+++ wt:src/parser.rs"), "got: {out}");

    let json = ok(w.run(&["diff", "1", "3", "--json"]));
    assert!(
        json.contains("\"path\":\"old.txt\",\"status\":\"deleted\""),
        "got: {json}"
    );
    assert!(
        json.contains("\"path\":\"src/lexer.rs\",\"status\":\"added\""),
        "got: {json}"
    );
}

#[test]
fn diff_names_added_and_deleted_empty_files() {
    let mut w = World::new();
    w.put("kept.txt", "k\n");
    w.take("", "", None, T0).unwrap();
    w.put("empty.txt", "");
    w.take("", "", None, T0).unwrap();
    assert_eq!(
        ok(w.run(&["diff", "1", "2"])),
        "--- /dev/null\n+++ turn 2:empty.txt\n"
    );
    assert_eq!(
        ok(w.run(&["diff", "2", "1"])),
        "--- turn 2:empty.txt\n+++ /dev/null\n"
    );
    let json = ok(w.run(&["diff", "1", "2", "--json"]));
    assert!(
        json.contains(
            "\"files\":[{\"path\":\"empty.txt\",\"status\":\"added\",\"lines_added\":0,\"lines_removed\":0,\"binary\":false}]"
        ),
        "got: {json}"
    );
    let json = ok(w.run(&["diff", "2", "1", "--json"]));
    assert!(json.contains("\"status\":\"deleted\""), "got: {json}");
}

#[test]
fn diff_names_binary_files_and_honors_directories() {
    let mut w = World::new();
    w.put_bytes("bin/a", b"\0one");
    w.put("txt/b", "one\n");
    ok(w.run(&["snap"]));
    w.put_bytes("bin/a", b"\0two");
    w.put("txt/b", "two\n");
    let out = ok(w.run(&["diff", "--path", "bin"]));
    assert_eq!(out, "Binary files turn 1:bin/a and wt:bin/a differ\n");
    let json = ok(w.run(&["diff", "--json"]));
    assert!(
        json.contains(
            "{\"path\":\"bin/a\",\"status\":\"modified\",\"lines_added\":0,\"lines_removed\":0,\"binary\":true}"
        ),
        "got: {json}"
    );
    assert!(
        json.contains(
            "{\"path\":\"txt/b\",\"status\":\"modified\",\"lines_added\":1,\"lines_removed\":1,\"binary\":false}"
        ),
        "got: {json}"
    );
    let err = fails(w.run(&["diff", "later"]), 2);
    assert!(err.contains("'later' is not a turn number"), "got: {err}");
    let err = fails(World::new().run(&["diff"]), 1);
    assert_eq!(err, "no snapshots yet (run 'snapref snap')");
}

#[test]
fn show_prints_metadata_with_git_compatible_blob_ids() {
    let mut w = World::new();
    // "hello world\n" hashes to git's well-known blob id, cross-checkable
    // with `git hash-object` on any machine.
    w.put("hello.txt", "hello world\n");
    ok(w.run(&["snap", "--label", "hello", "--agent", "demo-agent"]));
    let show = ok(w.run(&["show", "1"]));
    assert!(show.contains("(turn 1)"), "got: {show}");
    assert!(show.contains("label:   hello"), "got: {show}");
    assert!(show.contains("agent:   demo-agent"), "got: {show}");
    assert!(
        show.contains("parent:  none (first snapshot)"),
        "got: {show}"
    );
    assert!(show.contains("100644 3b18e512  hello.txt"), "got: {show}");

    let json = ok(w.run(&["show", "1", "--json"]));
    assert!(
        json.contains("\"id\":\"3b18e512dba79e4c8300dd08aeb37f8e728b8dad\""),
        "got: {json}"
    );
}

#[test]
fn show_names_the_parent_turn() {
    let mut w = three_turn_project();
    let first = w.store.turn_id(1).unwrap();
    let show = ok(w.run(&["show", "2"]));
    assert!(
        show.contains(&format!("parent:  turn 1 ({})", &first[..8])),
        "got: {show}"
    );
    assert!(show.contains("changes: +1 ~1 -0 files, +2 -0 lines\nfiles:   4\n\n"));
    assert_eq!(turn_of_id(&w.store, &first), Ok(Some(1)));
    assert_eq!(turn_of_id(&w.store, "none"), Ok(None));
    let err = fails(w.run(&["show", "x"]), 2);
    assert_eq!(err, "'x' is not a turn number");
    let err = fails(w.run(&["show", "1:a", "--json"]), 2);
    assert!(err.contains("--json applies to 'show TURN' only"), "got: {err}");
}

#[test]
fn show_turn_colon_path_emits_exact_bytes() {
    let mut w = three_turn_project();
    let v2 = ok(w.run(&["show", "2:src/parser.rs"]));
    assert_eq!(v2, "fn parse() {\n    lex();\n    todo!()\n}\n");
    let v1 = ok(w.run(&["show", "1:src/parser.rs"]));
    assert_eq!(v1, "fn parse() {\n    todo!()\n}\n");
    let err = fails(w.run(&["show", "2:no/such/file.rs"]), 1);
    assert!(err.contains("no such file in turn 2"), "got: {err}");
    let dotted = ok(w.run(&["show", "1:././src/parser.rs"]));
    assert_eq!(dotted, v1);
}

#[test]
fn restore_rewinds_the_tree_and_backs_up_dirty_work_first() {
    let mut w = three_turn_project();
    // Dirty the tree with work no snapshot holds.
    w.put("src/parser.rs", "fn parse() { /* uncommitted */ }\n");
    let out = ok(w.run_at(T0 + 300, &["restore", "1"]));
    assert!(
        out.contains("working tree backed up as turn 4"),
        "got: {out}"
    );
    assert!(
        out.contains("restored working tree to turn 1"),
        "got: {out}"
    );

    // Turn 1 state: parser v1 back, lexer gone, old.txt resurrected.
    assert_eq!(w.read("src/parser.rs"), "fn parse() {\n    todo!()\n}\n");
    assert!(!w.disk.contains_key("src/lexer.rs"));
    assert_eq!(w.read("old.txt"), "obsolete\n");

    // The uncommitted edit is safe inside the backup turn.
    let backup = ok(w.run(&["show", "4:src/parser.rs"]));
    assert_eq!(backup, "fn parse() { /* uncommitted */ }\n");

    // And the rewind is itself reversible: restore the backup turn.
    ok(w.run_at(T0 + 360, &["restore", "4"]));
    assert_eq!(w.read("src/parser.rs"), "fn parse() { /* uncommitted */ }\n");

    // Nothing left to do the second time.
    let out = ok(w.run_at(T0 + 420, &["restore", "4", "--no-backup", "--force"]));
    assert!(out.contains("working tree already matches turn 4"), "got: {out}");
}

#[test]
fn restore_path_scope_and_the_no_backup_force_gate() {
    let mut w = three_turn_project();
    let out = ok(w.run(&["restore", "1", "--path", "src/parser.rs"]));
    assert!(out.contains("restored 1 file(s) from turn 1"), "got: {out}");
    assert_eq!(w.read("src/parser.rs"), "fn parse() {\n    todo!()\n}\n");
    assert!(
        w.disk.contains_key("src/lexer.rs"),
        "path restore must not delete"
    );

    // Tree is now dirty vs turn 3; --no-backup alone must refuse.
    let err = fails(w.run(&["restore", "3", "--no-backup"]), 1);
    assert!(err.contains("--force"), "got: {err}");
    let out = ok(w.run(&["restore", "3", "--no-backup", "--force"]));
    assert!(
        out.contains("restored working tree to turn 3"),
        "got: {out}"
    );
    assert_eq!(
        w.read("src/parser.rs"),
        "fn parse() {\n    lex();\n    build_ast()\n}\n"
    );
}

#[test]
fn verify_passes_on_a_healthy_store_and_flags_corruption() {
    let mut w = three_turn_project();
    let out = ok(w.run(&["verify"]));
    assert!(out.contains("verify OK:"), "got: {out}");
    assert!(out.contains("3 turn ref(s)"), "got: {out}");

    // Flip one byte inside one object: verify must name the object and fail.
    let victim = w.store.table.added()[0].clone();
    let saved = w.store.table.get(&victim).unwrap().clone();
    let mut corrupt = saved.clone();
    let last = corrupt.len() - 1;
    corrupt[last] ^= 0xff;
    w.store.table.load(victim.clone(), corrupt);
    let err = fails(w.run(&["verify"]), 1);
    assert!(err.contains("verify failed"), "got: {err}");
    assert!(err.contains("problem:"), "got: {err}");
    assert!(err.contains(&victim), "got: {err}");

    // Restoring the original bytes heals the store.
    w.store.table.load(victim, saved);
    ok(w.run(&["verify"]));
}

#[test]
fn snaprefignore_prunes_snapshots_and_commands_fail_cleanly_outside_a_store() {
    let mut w = World::new();
    w.put(".snaprefignore", "*.log\nscratch/\n");
    w.put("keep.rs", "kept\n");
    w.put("noise.log", "ignored\n");
    w.put("scratch/tmp.txt", "ignored\n");
    ok(w.run(&["snap", "--label", "with ignores"]));
    let show = ok(w.run(&["show", "1"]));
    assert!(show.contains("keep.rs"), "got: {show}");
    assert!(show.contains(".snaprefignore"), "got: {show}"); // the ignore file itself is tracked
    assert!(!show.contains("noise.log"), "got: {show}");
    assert!(!show.contains("scratch"), "got: {show}");

    // Outside any store: clear operational error pointing at init.
    let mut outside = World::new();
    outside.initialized = false;
    let err = fails(outside.run(&["status"]), 1);
    assert!(err.contains("snapref init"), "got: {err}");
    // Unknown commands and flags are usage errors (exit 2).
    let err = fails(outside.run(&["frobnicate"]), 2);
    assert!(err.contains("unknown command"), "got: {err}");
    fails(outside.run(&["log", "--nope"]), 2);
}

#[test]
fn an_empty_store_has_an_empty_log_and_no_status() {
    let mut w = World::new();
    assert_eq!(
        ok(w.run(&["log"])),
        "no turns recorded yet (run 'snapref snap')\n"
    );
    assert_eq!(
        ok(w.run(&["log", "--json"])),
        "{\"tool\":\"snapref\",\"version\":\"0.1.0\",\"turns\":[]}\n"
    );
    let err = fails(w.run(&["status"]), 1);
    assert_eq!(err, "no snapshots yet (run 'snapref snap')");
}

fn reversed(list: Vec<FoundEntry>) -> Vec<FoundEntry> {
    list.into_iter()
        .rev()
        .map(|e| FoundEntry {
            found: match e.found {
                Found::Dir(Ok(below)) => Found::Dir(Ok(reversed(below))),
                other => other,
            },
            ..e
        })
        .collect()
}

#[test]
fn the_order_of_a_listing_does_not_matter() {
    let mut w = World::new();
    w.put("src/b.rs", "b\n");
    w.put("src/a.rs", "a\n");
    w.put("src/deep/z", "z\n");
    w.put("target/out", "x\n");
    w.disk.insert("src/link".to_string(), None);
    let (files, stats) = w.walk().unwrap();
    let (again, other) = walk(&Ok(reversed(listing(&w.disk, ""))), &[]).unwrap();
    let rels = |list: &[WorkFile]| list.iter().map(|f| f.rel.clone()).collect::<Vec<_>>();
    assert_eq!(rels(&files), ["src/a.rs", "src/b.rs", "src/deep/z"]);
    assert_eq!(rels(&files), rels(&again));
    assert_eq!(stats, other);
    assert_eq!((stats.symlinks, stats.excluded), (1, 1));
}

#[test]
fn every_snapshot_leaves_a_sound_store() {
    let mut w = World::new();
    assert!(verify(&w.store, &w.fans()).unwrap().problems.is_empty());
    for n in 0..3 {
        w.put("a/b/c.txt", &format!("line {n}\n"));
        w.put("top.txt", "same\n");
        w.take("", "", None, T0 + n).unwrap();
        let report = verify(&w.store, &w.fans()).unwrap();
        assert!(report.problems.is_empty());
        assert_eq!(report.refs as i64, n + 1);
    }
    assert!(w.take("", "", Some(2), T0).is_err());
    assert!(verify(&w.store, &w.fans()).unwrap().problems.is_empty());
}

#[test]
fn added_objects_are_the_new_ones() {
    let mut w = World::new();
    w.put("a.txt", "one\n");
    w.take("", "", None, T0).unwrap();
    // A blob, a tree and the record.
    assert_eq!(w.store.table.added().len(), 3);
    assert_eq!(w.store.table.count(), 3);
    w.put("b.txt", "one\n");
    let snap = w.take("", "", None, T0).unwrap();
    // The content is there already: another tree and another record.
    let added = w.store.table.added();
    assert_eq!(added.len(), 5);
    assert_eq!(added[3], snap.tree);
    assert_eq!(added[4], snap.id);
}

#[test]
fn going_back_mirrors_the_statistics() {
    let mut w = World::new();
    w.put("kept.txt", "a\nb\nc\n");
    w.put("gone.txt", "1\n2\n3\n");
    w.put_bytes("image", &[0, 1, 2]);
    w.take("", "", None, 1).unwrap();
    let old = std::mem::take(&mut w.disk);
    w.put("kept.txt", "a\nB\nc\nd\n");
    w.put("new.txt", "n\n");
    w.put_bytes("image", &[0, 9]);
    let there = w.take("", "", None, 2).unwrap().stats;
    w.disk = old;
    let back = w.take("", "", None, 3).unwrap().stats;
    assert_eq!(
        (there.files_added, there.files_modified, there.files_deleted),
        (1, 2, 1)
    );
    assert_eq!((there.lines_added, there.lines_removed), (2 + 1, 1 + 3));
    assert_eq!(
        (back.files_added, back.files_modified, back.files_deleted),
        (there.files_deleted, there.files_modified, there.files_added)
    );
    assert_eq!(
        (back.lines_added, back.lines_removed),
        (there.lines_removed, there.lines_added)
    );
}

#[test]
fn lookups_agree_with_the_listing() {
    let mut w = World::new();
    w.put("a.txt", "a\n");
    w.put("odd\r", "carriage\n");
    w.disk
        .insert("dir/sub/run".to_string(), Some((b"x".to_vec(), true)));
    let snap = w.take("", "", None, 1).unwrap();
    let files = files_of(&w.store, &snap).unwrap();
    assert_eq!(rels(&files), ["a.txt", "dir/sub/run", "odd\r"]);
    for e in &files {
        let (bytes, executable) = file_at(&w.store, &snap, &e.rel).unwrap().unwrap();
        assert_eq!(snapref::object::id_of(Kind::Blob, &bytes), e.id);
        assert_eq!(executable, e.executable);
    }
    // Empty components do not count.
    assert!(file_at(&w.store, &snap, "/dir//sub/run/").unwrap().is_some());
    for rel in ["", "/", "dir", "dir/sub", "a.txt/b", "odd", "missing"] {
        assert_eq!(file_at(&w.store, &snap, rel).unwrap(), None, "at {rel:?}");
    }
}

#[test]
fn a_second_restore_does_nothing() {
    let mut w = World::new();
    w.put("a.txt", "1\n");
    w.put("dir/b.txt", "b\n");
    let first = w.take("", "", None, 1).unwrap();
    w.put("a.txt", "2\n");
    w.put("extra/c.txt", "c\n");
    w.disk.remove("dir/b.txt");
    let out = w.restore(1, &[], false, false, "", 2).unwrap();
    assert_eq!((out.written, out.deleted, out.backup), (2, 1, Some(2)));
    assert!(w.changes(&first).is_empty());
    let again = w.restore(1, &[], false, false, "", 3).unwrap();
    assert_eq!((again.written, again.deleted), (0, 0));
}

#[test]
fn a_file_name_with_a_carriage_return_survives_a_restore() {
    let mut w = World::new();
    w.put("odd\r", "kept\n");
    w.take("", "", None, 1).unwrap();
    w.disk.remove("odd\r");
    let out = w.restore(1, &[], false, false, "", 2).unwrap();
    assert_eq!(out.written, 1);
    assert_eq!(w.read("odd\r"), "kept\n");
    assert_eq!(w.disk.len(), 1);
}

#[test]
fn statistics_are_made_between_two_lists() {
    let mut w = World::new();
    w.put("a.txt", "1\n2\n");
    let first = w.take("", "", None, 1).unwrap();
    w.put("a.txt", "1\n3\n4\n");
    w.put("b.txt", "b\n");
    let second = w.take("", "", None, 2).unwrap();
    let old = files_of(&w.store, &first).unwrap();
    let new = files_of(&w.store, &second).unwrap();
    assert_eq!(
        stats_between(w.store.objects(), &old, &new).unwrap(),
        second.stats
    );
    let back = stats_between(w.store.objects(), &new, &old).unwrap();
    assert_eq!((back.files_deleted, back.files_modified), (1, 1));
    assert_eq!((back.lines_added, back.lines_removed), (1, 2 + 1));
    assert!(stats_between(w.store.objects(), &new, &new)
        .unwrap()
        .is_empty());
}

#[test]
fn a_tree_that_repeats_a_name_can_be_restored() {
    let mut w = World::new();
    let ids: Vec<String> = ["one\n", "two\n"]
        .iter()
        .map(|text| snapref::object::write(&mut w.store.table, Kind::Blob, text.as_bytes()))
        .collect();
    let text = format!("100644 {} a\n100644 {} a\n", ids[0], ids[1]);
    let tree = snapref::object::write(&mut w.store.table, Kind::Tree, text.as_bytes());
    let record =
        format!("tree {tree}\nparent -\nturn 1\ntime 0\nstats 0 0 0 0 0\nagent \nlabel \n");
    let id = snapref::object::write(&mut w.store.table, Kind::Snapshot, record.as_bytes());
    w.store.write_turn(1, &id).unwrap();
    let out = w.restore(1, &[], false, false, "", 2).unwrap();
    assert_eq!(out.written, 2);
    assert_eq!(w.read("a"), "two\n");
    let snap = w.store.snapshot(1).unwrap();
    assert!(w.changes(&snap).is_empty());
}
