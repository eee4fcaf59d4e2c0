//! What `snap`, `show`, `restore` and `verify` report, told from what was
//! recorded, asked for, done and found.

use vstd::prelude::*;

use crate::audit::{
    entry_problems, listed, loose_problems, record_problems, ref_problems, rehashed,
    snapshot_problems, store_report, tree_problems, turn_problems, FanView, NamedView, ReportView,
};
use crate::cli::{json_text, FailView};
use crate::commands::{
    problem_lines, restore_text, snap_agent, snap_json, snap_text, verify_output,
};
use crate::decimal::{law_numeral_reads_back, numeral};
use crate::inspect::{
    file_json, file_lines, show_output, turn_with_id, without_dot_slash, ReplyView,
};
use crate::object::{decoded, fetched, parsed_tree, Kind, SnapshotView, Stats, TreeEntryView};
use crate::reporting::{in_a_row, lemma_envelope, short_id, stats_fields_of};
use crate::restore::RestoreOutcome;
use crate::snapshot::{snapshot_file, snapshot_files, FileEntryView};
use crate::store::StoreView;
use crate::text::{joined_by, lemma_split_first};
use crate::timefmt::utc_text;

verus! {

/// Files added, modified and deleted, and lines added and removed.
pub open spec fn counts_text(st: Stats) -> Seq<char> {
    "+"@ + numeral(st.files_added as nat) + " ~"@ + numeral(st.files_modified as nat) + " -"@
        + numeral(st.files_deleted as nat) + " files, +"@ + numeral(st.lines_added as nat) + " -"@
        + numeral(st.lines_removed as nat) + " lines"@
}

/// Nothing was added, modified, deleted or removed.
pub open spec fn all_zero(st: Stats) -> bool {
    st.files_added == 0 && st.files_modified == 0 && st.files_deleted == 0 && st.lines_added == 0
        && st.lines_removed == 0
}

/// `snap` reports the snapshot that it took: its number, its id, the turn before
/// it, its counts under their names, its agent, label and time. Where nothing
/// changed since an earlier turn, it says since which.
pub proof fn law_snap_reports_the_snapshot(snap: SnapshotView, previous: Option<u64>)
    ensures
        snap_json(snap, previous) == "{\"tool\":\"snapref\",\"version\":\"0.1.0\""@
            + ",\"turn\":"@ + numeral(snap.turn as nat) + ",\"id\":"@ + json_text(snap.id)
            + ",\"parent_turn\":"@ + (match previous {
            Some(t) => numeral(t as nat),
            None => "null"@,
        }) + ","@ + stats_fields_of(snap.stats) + ",\"agent\":"@ + json_text(snap.agent)
            + ",\"label\":"@ + json_text(snap.label) + ",\"time\":"@ + json_text(
            utc_text(snap.time as int),
        ) + "}\n"@,
        snap_text(snap, previous) == "turn "@ + numeral(snap.turn as nat) + " snapped "@ + short_id(
            snap.id,
        ) + (if all_zero(snap.stats) && previous is Some {
            ": no changes since turn "@ + numeral(previous->0 as nat)
        } else {
            ": "@ + counts_text(snap.stats)
        }) + "\n"@,
{
    lemma_envelope();
    assert(crate::cli::shortened(snap.id) =~= short_id(snap.id));
    assert(snap.stats == crate::object::no_changes() <==> all_zero(snap.stats));
    assert(crate::commands::changes_text(snap.stats) =~= counts_text(snap.stats));
    if all_zero(snap.stats) && previous is Some {
        assert(snap_text(snap, previous) =~= "turn "@ + numeral(snap.turn as nat) + " snapped "@
            + short_id(snap.id) + (": no changes since turn "@ + numeral(previous->0 as nat))
            + "\n"@);
    } else {
        assert(snap_text(snap, previous) =~= "turn "@ + numeral(snap.turn as nat) + " snapped "@
            + short_id(snap.id) + (": "@ + counts_text(snap.stats)) + "\n"@);
    }
}

/// The agent that `snap` records is the one given on the command line, and
/// otherwise the one of the environment.
pub proof fn law_given_agent_goes_before_the_environment(
    o: crate::args::SnapOptionsView,
    env_agent: Seq<char>,
)
    ensures
        o.agent matches Some(a) ==> snap_agent(o, env_agent) == a,
        o.agent is None ==> snap_agent(o, env_agent) == env_agent,
{
}

/// The mode of a file in a listing.
pub open spec fn mode_of(e: FileEntryView) -> Seq<char> {
    if e.executable {
        "100755"@
    } else {
        "100644"@
    }
}

/// A file in the JSON listing.
pub open spec fn listed_json(e: FileEntryView) -> Seq<char> {
    "{\"mode\":"@ + json_text(mode_of(e)) + ",\"id\":"@ + json_text(e.id) + ",\"path\":"@
        + json_text(e.rel) + "}"@
}

/// A file in the listing.
pub open spec fn listed_line(e: FileEntryView) -> Seq<char> {
    "  "@ + mode_of(e) + " "@ + short_id(e.id) + "  "@ + e.rel + "\n"@
}

/// The turn that has the snapshot's parent as its snapshot: the lowest such
/// turn, and none where no turn has it or there is no parent.
pub open spec fn turn_of_parent(s: StoreView, snap: SnapshotView, found: Option<u64>) -> bool {
    match found {
        Some(p) => snap.parent is Some && s.turns().contains(p) && s.turn_id(p) == Ok::<
            Seq<char>,
            Seq<char>,
        >(snap.parent->0) && forall|t: u64|
            s.turns().contains(t) && #[trigger] s.turn_id(t) == Ok::<Seq<char>, Seq<char>>(
                snap.parent->0,
            ) ==> p <= t,
        None => snap.parent is Some ==> forall|t: u64|
            s.turns().contains(t) ==> #[trigger] s.turn_id(t) != Ok::<Seq<char>, Seq<char>>(
                snap.parent->0,
            ),
    }
}

proof fn lemma_turn_with_id(s: StoreView, turns: Seq<u64>, i: int, id: Seq<char>)
    requires
        0 <= i <= turns.len(),
        turn_with_id(s, turns, i, id) is Ok,
    ensures
        match turn_with_id(s, turns, i, id)->Ok_0 {
            Some(p) => exists|k: int|
                i <= k < turns.len() && #[trigger] turns[k] == p && s.turn_id(p) == Ok::<
                    Seq<char>,
                    Seq<char>,
                >(id) && forall|m: int|
                    i <= m < k ==> s.turn_id(#[trigger] turns[m]) != Ok::<Seq<char>, Seq<char>>(id),
            None => forall|m: int|
                i <= m < turns.len() ==> s.turn_id(#[trigger] turns[m]) != Ok::<
                    Seq<char>,
                    Seq<char>,
                >(id),
        },
    decreases turns.len() - i,
{
    if i < turns.len() && s.turn_id(turns[i])->Ok_0 != id {
        lemma_turn_with_id(s, turns, i + 1, id);
        if let Some(p) = turn_with_id(s, turns, i, id)->Ok_0 {
            let k = choose|k: int|
                i + 1 <= k < turns.len() && #[trigger] turns[k] == p && s.turn_id(p) == Ok::<
                    Seq<char>,
                    Seq<char>,
                >(id) && forall|m: int|
                    i + 1 <= m < k ==> s.turn_id(#[trigger] turns[m]) != Ok::<
                        Seq<char>,
                        Seq<char>,
                    >(id);
            assert(turns[k] == p);
            assert forall|m: int| i <= m < k implies s.turn_id(#[trigger] turns[m]) != Ok::<
                Seq<char>,
                Seq<char>,
            >(id) by {
                if m > i {
                    assert(i + 1 <= m);
                }
            }
        }
    } else if i < turns.len() {
        assert(turns[i] == turns[i]);
    }
}

proof fn lemma_parent_turn(s: StoreView, snap: SnapshotView)
    requires
        snap.parent matches Some(id) ==> turn_with_id(s, s.turns(), 0, id) is Ok,
    ensures
        turn_of_parent(
            s,
            snap,
            match snap.parent {
                Some(id) => turn_with_id(s, s.turns(), 0, id)->Ok_0,
                None => None,
            },
        ),
{
    let turns = s.turns();
    crate::store::law_turns_are_ascending(s);
    if let Some(id) = snap.parent {
        lemma_turn_with_id(s, turns, 0, id);
        match turn_with_id(s, turns, 0, id)->Ok_0 {
            Some(p) => {
                let k = choose|k: int|
                    0 <= k < turns.len() && #[trigger] turns[k] == p && s.turn_id(p) == Ok::<
                        Seq<char>,
                        Seq<char>,
                    >(id) && forall|m: int|
                        0 <= m < k ==> s.turn_id(#[trigger] turns[m]) != Ok::<
                            Seq<char>,
                            Seq<char>,
                        >(id);
                assert(turns.contains(p));
                assert forall|t: u64|
                    turns.contains(t) && #[trigger] s.turn_id(t) == Ok::<Seq<char>, Seq<char>>(
                        id,
                    ) implies p <= t by {
                    let m = choose|m: int| 0 <= m < turns.len() && turns[m] == t;
                    assert(m >= k) by {
                        if m < k {
                            assert(s.turn_id(turns[m]) != Ok::<Seq<char>, Seq<char>>(id));
                        }
                    }
                    if m > k {
                        assert(turns[k] <= turns[m]);
                    }
                }
            },
            None => {
                assert forall|t: u64| turns.contains(t) implies #[trigger] s.turn_id(t) != Ok::<
                    Seq<char>,
                    Seq<char>,
                >(id) by {
                    let m = choose|m: int| 0 <= m < turns.len() && turns[m] == t;
                    assert(s.turn_id(turns[m]) != Ok::<Seq<char>, Seq<char>>(id));
                }
            },
        }
    }
}

proof fn lemma_file_lines(files: Seq<FileEntryView>, n: nat)
    requires
        n <= files.len(),
    ensures
        file_lines(files, n) == in_a_row(
            files.take(n as int).map_values(|e: FileEntryView| listed_line(e)),
        ),
    decreases n,
{
    let lines = files.take(n as int).map_values(|e: FileEntryView| listed_line(e));
    if n > 0 {
        lemma_file_lines(files, (n - 1) as nat);
        assert(lines.drop_last() =~= files.take(n - 1).map_values(
            |e: FileEntryView| listed_line(e),
        ));
        let e = files[n - 1];
        assert(crate::cli::shortened(e.id) =~= short_id(e.id));
        assert(crate::tree::file_mode(e.executable) =~= mode_of(e));
    }
}

/// `show TURN` tells what the turn's snapshot says: its id, number, time, agent,
/// label and counts, the turn of its parent, and every file with its mode, id
/// and path in the order of the paths.
pub proof fn law_show_tells_the_snapshot(s: StoreView, turn: u64)
    requires
        s.snapshot(turn) is Ok,
        snapshot_files(s.objects, s.snapshot(turn)->Ok_0.tree) is Ok,
    ensures
        ({
            let snap = s.snapshot(turn)->Ok_0;
            let files = snapshot_files(s.objects, snap.tree)->Ok_0;
            &&& show_output(s, numeral(turn as nat), true) matches Ok(reply) ==> exists|
                found: Option<u64>,
            | #[trigger]
                turn_of_parent(s, snap, found) && reply == ReplyView::Text(
                    "{\"tool\":\"snapref\",\"version\":\"0.1.0\""@ + ",\"turn\":"@ + numeral(
                        snap.turn as nat,
                    ) + ",\"id\":"@ + json_text(snap.id) + ",\"time\":"@ + json_text(
                        utc_text(snap.time as int),
                    ) + ",\"agent\":"@ + json_text(snap.agent) + ",\"label\":"@ + json_text(
                        snap.label,
                    ) + ",\"parent_turn\":"@ + (match found {
                        Some(p) => numeral(p as nat),
                        None => "null"@,
                    }) + ",\"files\":["@ + joined_by(
                        files.map_values(|e: FileEntryView| listed_json(e)),
                        ',',
                    ) + "]}\n"@,
                )
            &&& show_output(s, numeral(turn as nat), false) matches Ok(reply) ==> exists|
                found: Option<u64>,
            | #[trigger]
                turn_of_parent(s, snap, found) && reply == ReplyView::Text(
                    "snapshot "@ + snap.id + " (turn "@ + numeral(snap.turn as nat)
                        + ")\ntime:    "@ + utc_text(snap.time as int) + "\nagent:   "@ + (
                    if snap.agent.len() == 0 {
                        "-"@
                    } else {
                        snap.agent
                    }) + "\nlabel:   "@ + (if snap.label.len() == 0 {
                        "-"@
                    } else {
                        snap.label
                    }) + "\n"@ + (match found {
                        Some(p) => "parent:  turn "@ + numeral(p as nat) + " ("@ + short_id(
                            snap.parent->0,
                        ) + ")\n"@,
                        None => "parent:  none (first snapshot)\n"@,
                    }) + "changes: "@ + counts_text(snap.stats) + "\nfiles:   "@ + numeral(
                        files.len(),
                    ) + "\n\n"@ + in_a_row(
                        files.map_values(|e: FileEntryView| listed_line(e)),
                    ),
                )
        }),
{
    let snap = s.snapshot(turn)->Ok_0;
    let files = snapshot_files(s.objects, snap.tree)->Ok_0;
    let target = numeral(turn as nat);
    lemma_numeral_has_no_colon(turn as nat);
    law_numeral_reads_back(turn as nat);
    lemma_envelope();
    if snap.parent matches Some(id) ==> turn_with_id(s, s.turns(), 0, id) is Ok {
        lemma_parent_turn(s, snap);
        let found = match snap.parent {
            Some(id) => turn_with_id(s, s.turns(), 0, id)->Ok_0,
            None => None,
        };
        assert(files.map_values(|e: FileEntryView| file_json(e)) =~= files.map_values(
            |e: FileEntryView| listed_json(e),
        )) by {
            assert forall|i: int| 0 <= i < files.len() implies file_json(#[trigger] files[i])
                == listed_json(files[i]) by {
                assert(crate::tree::file_mode(files[i].executable) =~= mode_of(files[i]));
            }
        }
        lemma_file_lines(files, files.len());
        assert(files.take(files.len() as int) =~= files);
        assert(crate::commands::changes_text(snap.stats) =~= counts_text(snap.stats));
        if snap.parent is Some {
            assert(crate::cli::shortened(snap.parent->0) =~= short_id(snap.parent->0));
        }
        assert(turn_of_parent(s, snap, found));
    }
}

proof fn lemma_numeral_has_no_colon(n: nat)
    ensures
        !numeral(n).contains(':'),
{
    law_numeral_reads_back(n);
    assert forall|i: int| 0 <= i < numeral(n).len() implies numeral(n)[i] != ':' by {
        assert(crate::decimal::is_digit(numeral(n)[i]));
    }
}

/// `show TURN:PATH` gives the exact bytes that the file at the path has at the
/// turn, with or without `./` in front, and fails where there is no such file.
pub proof fn law_show_gives_the_exact_bytes(s: StoreView, turn: u64, path: Seq<char>)
    requires
        s.snapshot(turn) is Ok,
        !(path.len() >= 2 && path[0] == '.' && path[1] == '/'),
    ensures
        ({
            let target = numeral(turn as nat).push(':') + path;
            let dotted = numeral(turn as nat).push(':') + (seq!['.', '/'] + path);
            let found = snapshot_file(s.objects, s.snapshot(turn)->Ok_0.tree, path);
            &&& found matches Ok(Some((bytes, _))) ==> show_output(s, target, false) == Ok::<
                ReplyView,
                FailView,
            >(ReplyView::Bytes(bytes))
            &&& found == Ok::<Option<(Seq<u8>, bool)>, Seq<char>>(None) ==> show_output(
                s,
                target,
                false,
            ) == Err::<ReplyView, FailView>(
                FailView {
                    code: 1,
                    msg: "no such file in turn "@ + numeral(turn as nat) + ": "@ + path,
                },
            )
            &&& show_output(s, dotted, false) == show_output(s, target, false)
            &&& show_output(s, target, true) is Err
        }),
{
    let head = numeral(turn as nat);
    let target = head.push(':') + path;
    let more = seq!['.', '/'] + path;
    let dotted = head.push(':') + more;
    lemma_numeral_has_no_colon(turn as nat);
    law_numeral_reads_back(turn as nat);
    lemma_split_first(target, ':', head, path);
    lemma_split_first(dotted, ':', head, more);
    assert(more.skip(2) =~= path);
    assert(without_dot_slash(path) == path);
    assert(without_dot_slash(more) == without_dot_slash(more.skip(2)));
}

/// `restore` reports what it did: the backup turn that it took first, where it
/// took one, and how many files it wrote and deleted to reach which turn.
pub proof fn law_restore_reports_what_it_did(
    outcome: RestoreOutcome,
    scoped: bool,
    turn: u64,
    id: Seq<char>,
)
    ensures
        restore_text(outcome, scoped, turn, id) == (match outcome.backup {
            Some(b) => "working tree backed up as turn "@ + numeral(b as nat) + "\n"@,
            None => Seq::empty(),
        }) + (if scoped {
            "restored "@ + numeral(outcome.written as nat) + " file(s) from turn "@ + (numeral(
                turn as nat,
            ) + " ("@ + short_id(id) + ")"@) + "\n"@
        } else if outcome.written == 0 && outcome.deleted == 0 {
            "working tree already matches turn "@ + (numeral(turn as nat) + " ("@ + short_id(id)
                + ")"@) + "\n"@
        } else {
            "restored working tree to turn "@ + (numeral(turn as nat) + " ("@ + short_id(id)
                + ")"@) + ": "@ + numeral(outcome.written as nat) + " file(s) written, "@
                + numeral(outcome.deleted as nat) + " deleted\n"@
        }),
{
    assert(crate::cli::shortened(id) =~= short_id(id));
}

proof fn lemma_problem_lines(problems: Seq<Seq<char>>, n: nat)
    requires
        n <= problems.len(),
    ensures
        problem_lines(problems, n) == in_a_row(
            problems.take(n as int).map_values(|p: Seq<char>| "problem: "@ + p + "\n"@),
        ),
    decreases n,
{
    let lines = problems.take(n as int).map_values(|p: Seq<char>| "problem: "@ + p + "\n"@);
    if n > 0 {
        lemma_problem_lines(problems, (n - 1) as nat);
        assert(lines.drop_last() =~= problems.take(n - 1).map_values(
            |p: Seq<char>| "problem: "@ + p + "\n"@,
        ));
    }
}

/// `verify` names every problem on a line of its own and fails where there is
/// any; otherwise it succeeds and prints how many objects of each kind and how
/// many turn refs there are.
pub proof fn law_verify_names_every_problem(rep: ReportView)
    ensures
        ({
            let (notes, outcome) = verify_output(Ok(rep));
            &&& notes == in_a_row(
                rep.problems.map_values(|p: Seq<char>| "problem: "@ + p + "\n"@),
            )
            &&& outcome is Ok <==> rep.problems.len() == 0
            &&& outcome matches Ok(text) ==> text == "verify OK: "@ + numeral(
                rep.blobs + rep.trees + rep.snapshots,
            ) + " object(s) ("@ + numeral(rep.blobs) + " blobs, "@ + numeral(rep.trees)
                + " trees, "@ + numeral(rep.snapshots) + " snapshots), "@ + numeral(rep.refs)
                + " turn ref(s)\n"@
            &&& outcome matches Err(f) ==> f.code == 1 && f.msg == "verify failed: "@ + numeral(
                rep.problems.len(),
            ) + " problem(s)"@
        }),
        forall|e: Seq<char>|
            (#[trigger] verify_output(Err(e))).1 == Err::<Seq<char>, FailView>(
                FailView { code: 1, msg: e },
            ),
{
    lemma_problem_lines(rep.problems, rep.problems.len());
    assert(rep.problems.take(rep.problems.len() as int) =~= rep.problems);
    if rep.problems.len() == 0 {
        assert(rep.problems.map_values(|p: Seq<char>| "problem: "@ + p + "\n"@)
            =~= Seq::<Seq<char>>::empty());
    }
}

/// How many of the files are sound objects of a kind.
pub open spec fn sound_objects(files: Seq<NamedView>, kind: Kind) -> nat
    decreases files.len(),
{
    if files.len() == 0 {
        0
    } else {
        let f = files.last();
        sound_objects(files.drop_last(), kind) + if crate::sha1::sha1_hex(f.data->Ok_0) == f.id
            && f.data is Ok && decoded(f.id, f.data->Ok_0) is Ok && decoded(
            f.id,
            f.data->Ok_0,
        )->Ok_0.0 == kind {
            1nat
        } else {
            0
        }
    }
}

proof fn lemma_counts(files: Seq<NamedView>, n: nat)
    requires
        n <= files.len(),
    ensures
        rehashed(files, n).blobs == sound_objects(files.take(n as int), Kind::Blob),
        rehashed(files, n).trees == sound_objects(files.take(n as int), Kind::Tree),
        rehashed(files, n).snapshots == sound_objects(files.take(n as int), Kind::Snapshot),
    decreases n,
{
    if n > 0 {
        lemma_counts(files, (n - 1) as nat);
        assert(files.take(n as int).drop_last() =~= files.take(n - 1));
        assert(files.take(n as int).last() == files[n - 1]);
    }
}

/// A report counts the sound object files of each kind, and the turns.
pub proof fn law_report_counts_the_objects(s: StoreView, fans: Seq<FanView>)
    ensures
        store_report(s, fans) matches Ok(rep) ==> rep.blobs == sound_objects(
            listed(fans),
            Kind::Blob,
        ) && rep.trees == sound_objects(listed(fans), Kind::Tree) && rep.snapshots == sound_objects(
            listed(fans),
            Kind::Snapshot,
        ) && rep.refs == s.turns().len(),
{
    lemma_counts(listed(fans), listed(fans).len());
    assert(listed(fans).take(listed(fans).len() as int) =~= listed(fans));
}

proof fn lemma_either_contains(a: Seq<Seq<char>>, b: Seq<Seq<char>>, p: Seq<char>)
    requires
        a.contains(p) || b.contains(p),
    ensures
        (a + b).contains(p),
{
    if a.contains(p) {
        let k = choose|k: int| 0 <= k < a.len() && a[k] == p;
        assert((a + b)[k] == p);
    } else {
        let k = choose|k: int| 0 <= k < b.len() && b[k] == p;
        assert((a + b)[a.len() + k] == p);
    }
}

/// What is wrong with an object file, if anything.
pub open spec fn file_fault(f: NamedView, p: Seq<char>) -> bool {
    match f.data {
        Err(e) => p == "cannot read object "@ + f.id + ": "@ + e,
        Ok(data) => if crate::sha1::sha1_hex(data) != f.id {
            p == "object "@ + f.id + " is corrupt (content hash mismatch)"@
        } else {
            decoded(f.id, data) == Err::<(Kind, Seq<u8>), Seq<char>>(p)
        },
    }
}

proof fn lemma_file_fault(files: Seq<NamedView>, n: nat, i: int, p: Seq<char>)
    requires
        0 <= i < n <= files.len(),
        file_fault(files[i], p),
    ensures
        rehashed(files, n).problems.contains(p),
    decreases n,
{
    let before = rehashed(files, (n - 1) as nat).problems;
    let after = rehashed(files, n).problems;
    if i < n - 1 {
        lemma_file_fault(files, (n - 1) as nat, i, p);
        let k = choose|k: int| 0 <= k < before.len() && before[k] == p;
        assert(after[k] == p);
    } else {
        assert(after[before.len() as int] == p);
    }
}

proof fn lemma_turn_fault(
    s: StoreView,
    kinds: Map<Seq<char>, Kind>,
    turns: Seq<u64>,
    n: nat,
    i: int,
    p: Seq<char>,
)
    requires
        0 <= i < n <= turns.len(),
        ref_problems(s, kinds, turns, n) is Ok,
        turn_problems(s, kinds, turns[i]) matches Ok(list) && list.contains(p),
    ensures
        ref_problems(s, kinds, turns, n)->Ok_0.contains(p),
    decreases n,
{
    let before = ref_problems(s, kinds, turns, (n - 1) as nat)->Ok_0;
    let here = turn_problems(s, kinds, turns[n - 1])->Ok_0;
    if i < n - 1 {
        lemma_turn_fault(s, kinds, turns, (n - 1) as nat, i, p);
    }
    lemma_either_contains(before, here, p);
}

proof fn lemma_loose_fault(
    s: StoreView,
    kinds: Map<Seq<char>, Kind>,
    records: Seq<Seq<char>>,
    n: nat,
    i: int,
    p: Seq<char>,
)
    requires
        0 <= i < n <= records.len(),
        kinds.contains_key(records[i]) && kinds[records[i]] == Kind::Snapshot,
        forall|t: u64|
            s.turns().contains(t) ==> #[trigger] s.turn_id(t) != Ok::<Seq<char>, Seq<char>>(
                records[i],
            ),
        snapshot_problems(s.objects, kinds, records[i]).contains(p),
    ensures
        loose_problems(s, kinds, records, n).contains(p),
    decreases n,
{
    let before = loose_problems(s, kinds, records, (n - 1) as nat);
    if i < n - 1 {
        lemma_loose_fault(s, kinds, records, (n - 1) as nat, i, p);
        if loose_problems(s, kinds, records, n) != before {
            lemma_either_contains(
                before,
                snapshot_problems(s.objects, kinds, records[n - 1]),
                p,
            );
        }
    } else {
        assert(!crate::audit::is_named(s, records[i])) by {
            if crate::audit::is_named(s, records[i]) {
                let k = choose|k: int|
                    0 <= k < s.turns().len() && s.turn_id(#[trigger] s.turns()[k]) == Ok::<
                        Seq<char>,
                        Seq<char>,
                    >(records[i]);
                assert(s.turns().contains(s.turns()[k]));
            }
        }
        lemma_either_contains(before, snapshot_problems(s.objects, kinds, records[i]), p);
    }
}

/// What is wrong with a record: a parent that is no snapshot, or anything that
/// is wrong with its tree.
proof fn lemma_record_fault(
    objects: Map<Seq<char>, Seq<u8>>,
    kinds: Map<Seq<char>, Kind>,
    who: Seq<char>,
    snap: SnapshotView,
    p: Seq<char>,
)
    requires
        tree_problems(objects, kinds, snap.tree, who, objects.len()).contains(p) || (
        snap.parent is Some && !(kinds.contains_key(snap.parent->0) && kinds[snap.parent->0]
            == Kind::Snapshot) && p == who + " parent "@ + snap.parent->0 + " is missing"@),
    ensures
        record_problems(objects, kinds, who, snap).contains(p),
{
    let below = tree_problems(objects, kinds, snap.tree, who, objects.len());
    if let Some(parent) = snap.parent {
        if !(kinds.contains_key(parent) && kinds[parent] == Kind::Snapshot) {
            let first = seq![who + " parent "@ + parent + " is missing"@];
            assert(first[0] == who + " parent "@ + parent + " is missing"@);
            lemma_either_contains(first, below, p);
        }
    }
}

proof fn lemma_entry_fault(
    objects: Map<Seq<char>, Seq<u8>>,
    kinds: Map<Seq<char>, Kind>,
    entries: Seq<TreeEntryView>,
    n: nat,
    who: Seq<char>,
    depth: nat,
    i: int,
    p: Seq<char>,
)
    requires
        0 <= i < n <= entries.len(),
        if entries[i].mode == "040000"@ {
            tree_problems(objects, kinds, entries[i].id, who, depth).contains(p)
        } else {
            !(kinds.contains_key(entries[i].id) && kinds[entries[i].id] == Kind::Blob) && p == who
                + " references missing blob "@ + entries[i].id + " ("@ + entries[i].name + ")"@
        },
    ensures
        entry_problems(objects, kinds, entries, n, who, depth).contains(p),
    decreases n,
{
    let before = entry_problems(objects, kinds, entries, (n - 1) as nat, who, depth);
    let after = entry_problems(objects, kinds, entries, n, who, depth);
    let e = entries[n - 1];
    if i < n - 1 {
        lemma_entry_fault(objects, kinds, entries, (n - 1) as nat, who, depth, i, p);
        if e.is_dir() {
            lemma_either_contains(before, tree_problems(objects, kinds, e.id, who, depth), p);
        } else if after != before {
            let k = choose|k: int| 0 <= k < before.len() && before[k] == p;
            assert(after[k] == p);
        }
    } else if e.is_dir() {
        lemma_either_contains(before, tree_problems(objects, kinds, e.id, who, depth), p);
    } else {
        assert(after[before.len() as int] == p);
    }
}

/// In a tree that is checked, a directory's faults are faults of the tree, and
/// every file whose blob is missing is named with its id and its name. A tree
/// that is missing is named itself.
pub proof fn law_every_missing_entry_is_named(
    objects: Map<Seq<char>, Seq<u8>>,
    kinds: Map<Seq<char>, Kind>,
    tree: Seq<char>,
    who: Seq<char>,
    depth: nat,
    i: int,
    p: Seq<char>,
)
    ensures
        !(kinds.contains_key(tree) && kinds[tree] == Kind::Tree) ==> tree_problems(
            objects,
            kinds,
            tree,
            who,
            depth,
        ).contains(who + " references missing tree "@ + tree),
        ({
            let entries = parsed_tree(fetched(objects, tree)->Ok_0.1)->Ok_0;
            let e = entries[i];
            kinds.contains_key(tree) && kinds[tree] == Kind::Tree && fetched(objects, tree) is Ok
                && parsed_tree(fetched(objects, tree)->Ok_0.1) is Ok && depth > 0 && 0 <= i
                < entries.len() && (if e.mode == "040000"@ {
                tree_problems(objects, kinds, e.id, who, (depth - 1) as nat).contains(p)
            } else {
                !(kinds.contains_key(e.id) && kinds[e.id] == Kind::Blob) && p == who
                    + " references missing blob "@ + e.id + " ("@ + e.name + ")"@
            }) ==> tree_problems(objects, kinds, tree, who, depth).contains(p)
        }),
{
    if !(kinds.contains_key(tree) && kinds[tree] == Kind::Tree) {
        let one = tree_problems(objects, kinds, tree, who, depth);
        assert(one[0] == who + " references missing tree "@ + tree);
    } else if fetched(objects, tree) is Ok && parsed_tree(fetched(objects, tree)->Ok_0.1) is Ok
        && depth > 0 {
        let entries = parsed_tree(fetched(objects, tree)->Ok_0.1)->Ok_0;
        let e = entries[i];
        if 0 <= i < entries.len() && (if e.mode == "040000"@ {
            tree_problems(objects, kinds, e.id, who, (depth - 1) as nat).contains(p)
        } else {
            !(kinds.contains_key(e.id) && kinds[e.id] == Kind::Blob) && p == who
                + " references missing blob "@ + e.id + " ("@ + e.name + ")"@
        }) {
            lemma_entry_fault(
                objects,
                kinds,
                entries,
                entries.len(),
                who,
                (depth - 1) as nat,
                i,
                p,
            );
        }
    }
}

/// Every fault of a store is named in its report: an object file that cannot be
/// read, is not what its name says or does not parse; a turn whose object is
/// missing or no snapshot; and of every snapshot, be it a turn's or not, a
/// parent that is missing and whatever is wrong with its tree.
pub proof fn law_every_fault_is_named(s: StoreView, fans: Seq<FanView>, p: Seq<char>)
    requires
        store_report(s, fans) is Ok,
    ensures
        ({
            let files = listed(fans);
            let kinds = rehashed(files, files.len()).kinds;
            let problems = store_report(s, fans)->Ok_0.problems;
            &&& forall|i: int|
                0 <= i < files.len() && file_fault(#[trigger] files[i], p) ==> problems.contains(p)
            &&& forall|i: int|
                0 <= i < s.turns().len() ==> {
                    let t = #[trigger] s.turns()[i];
                    let id = s.turn_id(t)->Ok_0;
                    let who = "turn "@ + numeral(t as nat);
                    s.turn_id(t) is Ok && (if !kinds.contains_key(id) {
                        p == who + " points at missing object "@ + id
                    } else if kinds[id] != Kind::Snapshot {
                        p == who + " points at a "@ + (match kinds[id] {
                            Kind::Blob => "blob"@,
                            Kind::Tree => "tree"@,
                            Kind::Snapshot => "snapshot"@,
                        }) + " object"@
                    } else {
                        s.snapshot(t) is Ok && ({
                            let snap = s.snapshot(t)->Ok_0;
                            tree_problems(
                                s.objects,
                                kinds,
                                snap.tree,
                                who,
                                s.objects.len(),
                            ).contains(p) || (snap.parent is Some && !(kinds.contains_key(
                                snap.parent->0,
                            ) && kinds[snap.parent->0] == Kind::Snapshot) && p == who
                                + " parent "@ + snap.parent->0 + " is missing"@)
                        })
                    }) ==> problems.contains(p)
                }
        }),
{
    let files = listed(fans);
    let found = rehashed(files, files.len());
    let kinds = found.kinds;
    let turns = s.turns();
    let more = ref_problems(s, kinds, turns, turns.len())->Ok_0;
    let loose = loose_problems(s, kinds, found.records, found.records.len());
    let problems = store_report(s, fans)->Ok_0.problems;
    assert forall|i: int| 0 <= i < files.len() && file_fault(
        #[trigger] files[i],
        p,
    ) implies problems.contains(p) by {
        lemma_file_fault(files, files.len(), i, p);
        lemma_either_contains(found.problems, more, p);
        lemma_either_contains(found.problems + more, loose, p);
    }
    assert forall|i: int| 0 <= i < turns.len() && turn_problems(
        s,
        kinds,
        #[trigger] turns[i],
    ) is Ok && turn_problems(s, kinds, turns[i])->Ok_0.contains(p) implies problems.contains(p) by {
        lemma_turn_fault(s, kinds, turns, turns.len(), i, p);
        lemma_either_contains(found.problems, more, p);
        lemma_either_contains(found.problems + more, loose, p);
    }
    assert forall|i: int| 0 <= i < turns.len() implies ({
        let t = #[trigger] turns[i];
        let id = s.turn_id(t)->Ok_0;
        let who = "turn "@ + numeral(t as nat);
        s.turn_id(t) is Ok && (if !kinds.contains_key(id) {
            p == who + " points at missing object "@ + id
        } else if kinds[id] != Kind::Snapshot {
            p == who + " points at a "@ + (match kinds[id] {
                Kind::Blob => "blob"@,
                Kind::Tree => "tree"@,
                Kind::Snapshot => "snapshot"@,
            }) + " object"@
        } else {
            s.snapshot(t) is Ok && ({
                let snap = s.snapshot(t)->Ok_0;
                tree_problems(s.objects, kinds, snap.tree, who, s.objects.len()).contains(p) || (
                snap.parent is Some && !(kinds.contains_key(snap.parent->0)
                    && kinds[snap.parent->0] == Kind::Snapshot) && p == who + " parent "@
                    + snap.parent->0 + " is missing"@)
            })
        }) ==> problems.contains(p)
    }) by {
        let t = turns[i];
        let id = s.turn_id(t)->Ok_0;
        let who = "turn "@ + numeral(t as nat);
        if s.turn_id(t) is Ok {
            if !kinds.contains_key(id) || kinds[id] != Kind::Snapshot {
                let one = turn_problems(s, kinds, t)->Ok_0;
                assert(one.contains(one[0]));
            } else if s.snapshot(t) is Ok {
                let snap = s.snapshot(t)->Ok_0;
                if tree_problems(s.objects, kinds, snap.tree, who, s.objects.len()).contains(p) || (
                snap.parent is Some && !(kinds.contains_key(snap.parent->0)
                    && kinds[snap.parent->0] == Kind::Snapshot) && p == who + " parent "@
                    + snap.parent->0 + " is missing"@) {
                    lemma_record_fault(s.objects, kinds, who, snap, p);
                }
            }
        }
    }
}

/// A snapshot that no turn has is checked like the others: whatever is wrong
/// with its tree or its parent is named.
pub proof fn law_loose_snapshots_are_checked(
    s: StoreView,
    fans: Seq<FanView>,
    id: Seq<char>,
    p: Seq<char>,
)
    requires
        store_report(s, fans) is Ok,
        ({
            let files = listed(fans);
            let kinds = rehashed(files, files.len()).kinds;
            let snap = crate::object::parsed_snapshot(
                id,
                fetched(s.objects, id)->Ok_0.1,
            )->Ok_0;
            let who = "snapshot "@ + id;
            &&& kinds.contains_key(id) && kinds[id] == Kind::Snapshot
            &&& forall|t: u64|
                s.turns().contains(t) ==> #[trigger] s.turn_id(t) != Ok::<Seq<char>, Seq<char>>(id)
            &&& fetched(s.objects, id) is Ok
            &&& crate::object::parsed_snapshot(id, fetched(s.objects, id)->Ok_0.1) is Ok
            &&& tree_problems(s.objects, kinds, snap.tree, who, s.objects.len()).contains(p) || (
            snap.parent is Some && !(kinds.contains_key(snap.parent->0) && kinds[snap.parent->0]
                == Kind::Snapshot) && p == who + " parent "@ + snap.parent->0 + " is missing"@)
        }),
    ensures
        store_report(s, fans)->Ok_0.problems.contains(p),
{
    let files = listed(fans);
    let found = rehashed(files, files.len());
    let kinds = found.kinds;
    let records = found.records;
    let snap = crate::object::parsed_snapshot(id, fetched(s.objects, id)->Ok_0.1)->Ok_0;
    let more = ref_problems(s, kinds, s.turns(), s.turns().len())->Ok_0;
    lemma_record_fault(s.objects, kinds, "snapshot "@ + id, snap, p);
    crate::audit::lemma_known_records(files, files.len(), id);
    let k = choose|k: int| 0 <= k < records.len() && records[k] == id;
    lemma_loose_fault(s, kinds, records, records.len(), k, p);
    lemma_either_contains(
        found.problems + more,
        loose_problems(s, kinds, records, records.len()),
        p,
    );
}

} // verus!
