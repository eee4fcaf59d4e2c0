//! What the commands report, told from the store and the working tree.

use vstd::prelude::*;

use crate::args::LogOptions;
use crate::cli::{json_body, json_text};
use crate::commands::{
    change_rows, envelope, json_list, left_aligned, log_json_row, log_output, log_row, log_rows,
    newest_first, rows_text, snapshots_of, spaces, status_output, status_text, tagged, turn_width,
    RowView,
};
use crate::decimal::numeral;
use crate::listing::distinct_paths;
use crate::object::{object_id, Kind, SnapshotView, Stats};
use crate::order::{in_order, law_sorted_by, lemma_text_order, text_before};
use crate::restore::{compared, has_path, missing, tree_changes, ChangesView};
use crate::snapshot::{
    entry_for, last_index, lemma_last_index, snapshot_files, FileEntryView, LoadedView,
};
use crate::store::StoreView;
use crate::text::joined_by;
use crate::timefmt::utc_text;
use crate::VERSION;

verus! {

/// How every JSON document starts.
pub(crate) proof fn lemma_envelope()
    ensures
        envelope() == "{\"tool\":\"snapref\",\"version\":\"0.1.0\""@,
{
    reveal_strlit("0.1.0");
    reveal_strlit("{\"tool\":\"snapref\",\"version\":");
    reveal_strlit("{\"tool\":\"snapref\",\"version\":\"0.1.0\"");
    let v = VERSION@;
    assert(v =~= seq!['0', '.', '1', '.', '0']);
    assert(v.take(5) =~= v);
    assert(v.take(4).drop_last() =~= v.take(3));
    assert(v.take(5).drop_last() =~= v.take(4));
    assert(v.take(3).drop_last() =~= v.take(2));
    assert(v.take(2).drop_last() =~= v.take(1));
    assert(v.take(1).drop_last() =~= v.take(0));
    assert(json_body(v.take(0)) =~= Seq::<char>::empty());
    assert(json_body(v.take(1)) =~= seq!['0']);
    assert(json_body(v.take(2)) =~= seq!['0', '.']);
    assert(json_body(v.take(3)) =~= seq!['0', '.', '1']);
    assert(json_body(v.take(4)) =~= seq!['0', '.', '1', '.']);
    assert(json_body(v.take(5)) =~= seq!['0', '.', '1', '.', '0']);
    assert(json_text(v) =~= seq!['"', '0', '.', '1', '.', '0', '"']);
    assert(envelope() =~= "{\"tool\":\"snapref\",\"version\":\"0.1.0\""@);
}

/// The turns that a log lists: from the latest on down, none skipped, as many as
/// the limit allows.
pub open spec fn newest_turns(s: StoreView, limit: Option<u64>, listed: Seq<u64>) -> bool {
    &&& listed.len() == match limit {
        Some(n) => if n < s.turns().len() {
            n as nat
        } else {
            s.turns().len()
        },
        None => s.turns().len(),
    }
    &&& listed.len() > 0 ==> s.latest() == Some(listed[0])
    &&& forall|i: int, j: int| 0 <= i < j < listed.len() ==> listed[i] >= listed[j]
    &&& forall|i: int| 0 <= i < listed.len() ==> s.turns().contains(#[trigger] listed[i])
    &&& forall|t: u64, i: int|
        #[trigger] s.turns().contains(t) && !listed.contains(t) && 0 <= i < listed.len() ==> t
            <= #[trigger] listed[i]
    &&& listed.len() == s.turns().len() ==> forall|t: u64|
        s.turns().contains(t) ==> #[trigger] listed.contains(t)
}

/// The counts of a snapshot's changes, each under its name.
pub open spec fn stats_fields_of(st: Stats) -> Seq<char> {
    "\"files_added\":"@ + numeral(st.files_added as nat) + ",\"files_modified\":"@ + numeral(
        st.files_modified as nat,
    ) + ",\"files_deleted\":"@ + numeral(st.files_deleted as nat) + ",\"lines_added\":"@ + numeral(
        st.lines_added as nat,
    ) + ",\"lines_removed\":"@ + numeral(st.lines_removed as nat)
}

/// A snapshot in the JSON log.
pub open spec fn logged_json(snap: SnapshotView) -> Seq<char> {
    "{\"turn\":"@ + numeral(snap.turn as nat) + ",\"id\":"@ + json_text(snap.id) + ",\"time\":"@
        + json_text(utc_text(snap.time as int)) + ","@ + stats_fields_of(snap.stats)
        + ",\"agent\":"@ + json_text(snap.agent) + ",\"label\":"@ + json_text(snap.label) + "}"@
}

/// Who made a snapshot and why, as far as it says.
pub open spec fn who_and_why(snap: SnapshotView) -> Seq<char> {
    (if snap.agent.len() > 0 {
        snap.agent + ": "@
    } else {
        Seq::empty()
    }) + (if snap.label.len() > 0 {
        snap.label
    } else {
        "(no label)"@
    })
}

/// The first eight characters, which stand for an id.
pub open spec fn short_id(id: Seq<char>) -> Seq<char> {
    id.take(if id.len() < 8 {
        id.len() as int
    } else {
        8
    })
}

/// A snapshot in the log, with its turn number filled up to a width.
pub open spec fn logged_line(snap: SnapshotView, width: int) -> Seq<char> {
    let number = numeral(snap.turn as nat);
    let files = "+"@ + numeral(snap.stats.files_added as nat) + " ~"@ + numeral(
        snap.stats.files_modified as nat,
    ) + " -"@ + numeral(snap.stats.files_deleted as nat);
    "turn "@ + (spaces(width - number.len()) + number) + "  "@ + short_id(snap.id) + "  "@
        + utc_text(snap.time as int) + "  "@ + files + "  "@ + who_and_why(snap) + "\n"@
}

proof fn lemma_log_line(x: SnapshotView, width: int)
    ensures
        log_row(x, width) == logged_line(x, width),
{
    reveal_strlit(": (no label)");
    reveal_strlit(": ");
    reveal_strlit("(no label)");
    assert(": (no label)"@ =~= ": "@ + "(no label)"@);
    assert(crate::cli::shortened(x.id) =~= short_id(x.id));
    assert(crate::cli::description(x) =~= who_and_why(x));
}

/// Texts one behind the other.
pub open spec fn in_a_row(parts: Seq<Seq<char>>) -> Seq<char>
    decreases parts.len(),
{
    if parts.len() == 0 {
        Seq::empty()
    } else {
        in_a_row(parts.drop_last()) + parts.last()
    }
}

/// The lines of the turns, one behind the other.
pub open spec fn log_table(s: StoreView, listed: Seq<u64>, width: int) -> Seq<char> {
    in_a_row(listed.map_values(|t: u64| logged_line(s.snapshot(t)->Ok_0, width)))
}

/// The column is as wide as the widest of its cells.
pub open spec fn as_wide_as(cells: Seq<Seq<char>>, width: int) -> bool {
    &&& forall|i: int| 0 <= i < cells.len() ==> (#[trigger] cells[i]).len() <= width
    &&& cells.len() > 0 ==> exists|i: int|
        0 <= i < cells.len() && (#[trigger] cells[i]).len() == width
}

/// The numbers of the turns.
pub open spec fn turn_numbers(s: StoreView, listed: Seq<u64>) -> Seq<Seq<char>> {
    listed.map_values(|t: u64| numeral(s.snapshot(t)->Ok_0.turn as nat))
}

pub(crate) proof fn lemma_wider(cells: Seq<Seq<char>>, width: int, cell: Seq<char>)
    requires
        as_wide_as(cells, width),
        cells.len() == 0 ==> width == 0,
    ensures
        as_wide_as(
            cells.push(cell),
            if cell.len() > width {
                cell.len() as int
            } else {
                width
            },
        ),
{
    let more = cells.push(cell);
    if cell.len() > width {
        assert(more[cells.len() as int].len() == cell.len());
    } else if cells.len() > 0 {
        let i = choose|i: int| 0 <= i < cells.len() && (#[trigger] cells[i]).len() == width;
        assert(more[i].len() == width);
    } else {
        assert(more[0].len() == width);
    }
    assert forall|i: int| 0 <= i < more.len() implies (#[trigger] more[i]).len() <= (
    if cell.len() > width {
        cell.len() as int
    } else {
        width
    }) by {
        if i < cells.len() {
            assert(more[i] == cells[i]);
        }
    }
}

proof fn lemma_turn_width(snaps: Seq<SnapshotView>, n: nat)
    requires
        n <= snaps.len(),
    ensures
        as_wide_as(
            snaps.take(n as int).map_values(|x: SnapshotView| numeral(x.turn as nat)),
            turn_width(snaps, n) as int,
        ),
    decreases n,
{
    let f = |x: SnapshotView| numeral(x.turn as nat);
    if n > 0 {
        lemma_turn_width(snaps, (n - 1) as nat);
        let before = snaps.take(n - 1).map_values(f);
        lemma_wider(
            before,
            turn_width(snaps, (n - 1) as nat) as int,
            numeral(snaps[n - 1].turn as nat),
        );
        assert(snaps.take(n as int).map_values(f) =~= before.push(
            numeral(snaps[n - 1].turn as nat),
        ));
    }
}

proof fn lemma_newest(s: StoreView, limit: Option<u64>)
    ensures
        newest_turns(s, limit, newest_first(s.turns(), limit)),
{
    let turns = s.turns();
    let all = turns.reverse();
    let listed = newest_first(turns, limit);
    let n = turns.len() as int;
    crate::store::law_turns_are_ascending(s);
    assert forall|i: int| 0 <= i < listed.len() implies #[trigger] listed[i] == turns[n - 1 - i] by {}
    assert forall|i: int| 0 <= i < listed.len() implies turns.contains(#[trigger] listed[i]) by {
        assert(turns[n - 1 - i] == listed[i]);
    }
    assert forall|i: int, j: int| 0 <= i < j < listed.len() implies listed[i] >= listed[j] by {
        assert(turns[n - 1 - j] <= turns[n - 1 - i]);
    }
    assert forall|t: u64, i: int| #[trigger] turns.contains(t) && !listed.contains(t) && 0 <= i
        < listed.len() implies t <= #[trigger] listed[i] by {
        let k = choose|k: int| 0 <= k < n && turns[k] == t;
        if n - 1 - k < listed.len() {
            assert(listed[n - 1 - k] == t);
        } else if k < n - 1 - i {
            assert(turns[k] <= turns[n - 1 - i]);
        }
    }
    if listed.len() == turns.len() {
        assert forall|t: u64| turns.contains(t) implies #[trigger] listed.contains(t) by {
            let k = choose|k: int| 0 <= k < n && turns[k] == t;
            assert(listed[n - 1 - k] == t);
        }
    }
}

proof fn lemma_snapshots_of(s: StoreView, turns: Seq<u64>, n: nat)
    requires
        n <= turns.len(),
        snapshots_of(s, turns, n) is Ok,
    ensures
        snapshots_of(s, turns, n)->Ok_0.len() == n,
        forall|i: int|
            0 <= i < n ==> s.snapshot(#[trigger] turns[i]) == Ok::<SnapshotView, Seq<char>>(
                snapshots_of(s, turns, n)->Ok_0[i],
            ),
    decreases n,
{
    if n > 0 {
        lemma_snapshots_of(s, turns, (n - 1) as nat);
    }
}

proof fn lemma_log_rows(snaps: Seq<SnapshotView>, n: nat, width: int)
    requires
        n <= snaps.len(),
    ensures
        log_rows(snaps, n, width) == in_a_row(
            snaps.take(n as int).map_values(|x: SnapshotView| logged_line(x, width)),
        ),
    decreases n,
{
    let rows = snaps.take(n as int).map_values(|x: SnapshotView| logged_line(x, width));
    if n > 0 {
        lemma_log_rows(snaps, (n - 1) as nat, width);
        let x = snaps[n - 1];
        assert(rows.drop_last() =~= snaps.take(n - 1).map_values(
            |x: SnapshotView| logged_line(x, width),
        ));
        lemma_log_line(x, width);
    }
}

/// `log` lists turns from the latest on down: with a limit, as many as it says,
/// and no turn that is left out is newer than one that is listed. Of each it
/// prints the snapshot's number, id, time, changes, agent and label; the numbers
/// stand in a column as wide as the widest.
pub proof fn law_log_lists_the_newest_turns(s: StoreView, limit: Option<u64>)
    ensures
        log_output(s, LogOptions { limit, json: true }) matches Ok(text) ==> exists|
            listed: Seq<u64>,
        | #[trigger]
            newest_turns(s, limit, listed) && (forall|i: int|
                0 <= i < listed.len() ==> s.snapshot(#[trigger] listed[i]) is Ok) && text
                == "{\"tool\":\"snapref\",\"version\":\"0.1.0\""@ + ",\"turns\":["@ + joined_by(
                listed.map_values(|t: u64| logged_json(s.snapshot(t)->Ok_0)),
                ',',
            ) + "]}\n"@,
        log_output(s, LogOptions { limit, json: false }) matches Ok(text) ==> exists|
            listed: Seq<u64>,
            width: int,
        |
            #![trigger log_table(s, listed, width)]
            newest_turns(s, limit, listed) && as_wide_as(turn_numbers(s, listed), width) && (forall|
                i: int,
            |
                0 <= i < listed.len() ==> s.snapshot(#[trigger] listed[i]) is Ok) && text == (
            if listed.len() > 0 {
                log_table(s, listed, width)
            } else {
                "no turns recorded yet (run 'snapref snap')\n"@
            }),
{
    lemma_newest(s, limit);
    lemma_envelope();
    let listed = newest_first(s.turns(), limit);
    if snapshots_of(s, listed, listed.len()) is Ok {
        let snaps = snapshots_of(s, listed, listed.len())->Ok_0;
        lemma_snapshots_of(s, listed, listed.len());
        let width = turn_width(snaps, snaps.len()) as int;
        assert(snaps.map_values(|x: SnapshotView| log_json_row(x)) =~= listed.map_values(
            |t: u64| logged_json(s.snapshot(t)->Ok_0),
        )) by {
            assert forall|i: int| 0 <= i < snaps.len() implies log_json_row(#[trigger] snaps[i])
                == logged_json(s.snapshot(listed[i])->Ok_0) by {
                assert(s.snapshot(listed[i]) is Ok);
            }
        }
        lemma_log_rows(snaps, snaps.len(), width);
        assert(snaps.take(snaps.len() as int) =~= snaps);
        assert(snaps.map_values(|x: SnapshotView| logged_line(x, width)) =~= listed.map_values(
            |t: u64| logged_line(s.snapshot(t)->Ok_0, width),
        )) by {
            assert forall|i: int| 0 <= i < snaps.len() implies #[trigger] snaps[i] == s.snapshot(
                listed[i],
            )->Ok_0 by {
                assert(s.snapshot(listed[i]) is Ok);
            }
        }
        lemma_turn_width(snaps, snaps.len());
        assert(snaps.map_values(|x: SnapshotView| numeral(x.turn as nat)) =~= turn_numbers(
            s,
            listed,
        )) by {
            assert forall|i: int| 0 <= i < snaps.len() implies #[trigger] snaps[i] == s.snapshot(
                listed[i],
            )->Ok_0 by {
                assert(s.snapshot(listed[i]) is Ok);
            }
        }
        let table = log_table(s, listed, width);
        assert(log_rows(snaps, snaps.len(), width) == table);
        if let Ok(text) = log_output(s, LogOptions { limit, json: false }) {
            assert(text == if listed.len() > 0 {
                table
            } else {
                "no turns recorded yet (run 'snapref snap')\n"@
            });
        }
    }
}

/// The list is strictly ascending.
pub open spec fn ascending_paths(list: Seq<Seq<char>>) -> bool {
    forall|i: int, j: int|
        0 <= i < j < list.len() ==> text_before(#[trigger] list[i], #[trigger] list[j])
}

/// The paths of the working tree's files.
pub open spec fn work_paths(work: Seq<LoadedView>) -> Seq<Seq<char>> {
    work.map_values(|f: LoadedView| f.rel)
}

/// The paths of a snapshot's files.
pub open spec fn file_paths(files: Seq<FileEntryView>) -> Seq<Seq<char>> {
    files.map_values(|f: FileEntryView| f.rel)
}

/// The file in the working tree is not the one in the snapshot.
pub open spec fn unlike(f: LoadedView, e: FileEntryView) -> bool {
    &&& f.rel == e.rel
    &&& object_id(Kind::Blob, f.data->Ok_0) != e.id || f.executable != e.executable
}

/// What changed from the files of a snapshot to the working tree: added is what
/// the working tree has and the snapshot lacks, deleted is what the snapshot has
/// and the working tree lacks, and modified is what both have with different
/// content or exec bit. Each list is in order and names a path once.
pub open spec fn changed_paths(
    files: Seq<FileEntryView>,
    work: Seq<LoadedView>,
    added: Seq<Seq<char>>,
    modified: Seq<Seq<char>>,
    deleted: Seq<Seq<char>>,
) -> bool {
    &&& forall|p: Seq<char>| #[trigger]
        added.contains(p) <==> work_paths(work).contains(p) && !file_paths(files).contains(p)
    &&& forall|p: Seq<char>| #[trigger]
        deleted.contains(p) <==> file_paths(files).contains(p) && !work_paths(work).contains(p)
    &&& forall|p: Seq<char>| #[trigger]
        modified.contains(p) <==> exists|i: int, k: int|
            0 <= i < work.len() && 0 <= k < files.len() && (#[trigger] work[i]).rel == p && unlike(
                work[i],
                #[trigger] files[k],
            )
    &&& ascending_paths(added)
    &&& ascending_paths(modified)
    &&& ascending_paths(deleted)
}

pub(crate) proof fn lemma_push_contains(list: Seq<Seq<char>>, x: Seq<char>, p: Seq<char>)
    ensures
        list.push(x).contains(p) <==> list.contains(p) || p == x,
{
    let out = list.push(x);
    if list.contains(p) {
        let k = choose|k: int| 0 <= k < list.len() && list[k] == p;
        assert(out[k] == p);
    }
    if p == x {
        assert(out[list.len() as int] == p);
    }
    if out.contains(p) {
        let k = choose|k: int| 0 <= k < out.len() && out[k] == p;
        if k < list.len() {
            assert(list[k] == p);
        }
    }
}

pub(crate) proof fn lemma_push_ascending(list: Seq<Seq<char>>, x: Seq<char>)
    requires
        ascending_paths(list),
        forall|i: int| 0 <= i < list.len() ==> text_before(#[trigger] list[i], x),
    ensures
        ascending_paths(list.push(x)),
{
    let out = list.push(x);
    assert forall|i: int, j: int| 0 <= i < j < out.len() implies text_before(
        #[trigger] out[i],
        #[trigger] out[j],
    ) by {
        if j < list.len() {
            assert(text_before(list[i], list[j]));
        } else {
            assert(text_before(list[i], x));
        }
    }
}

proof fn lemma_has_file(files: Seq<FileEntryView>, p: Seq<char>)
    requires
        distinct_paths(files),
    ensures
        file_paths(files).contains(p) <==> last_index(files, p) >= 0,
        forall|k: int| 0 <= k < files.len() && (#[trigger] files[k]).rel == p ==> entry_for(files, p)
            == Some(files[k]),
{
    lemma_last_index(files, p);
    let i = last_index(files, p);
    if i >= 0 {
        assert(file_paths(files)[i] == p);
    }
    if file_paths(files).contains(p) {
        let k = choose|k: int| 0 <= k < file_paths(files).len() && file_paths(files)[k] == p;
        assert(files[k].rel == p);
    }
    assert forall|k: int| 0 <= k < files.len() && (#[trigger] files[k]).rel == p implies entry_for(
        files,
        p,
    ) == Some(files[k]) by {
        assert(files[i].rel == files[k].rel);
    }
}

/// The changed path is one of the first `n` of the working tree.
spec fn differs_at(files: Seq<FileEntryView>, work: Seq<LoadedView>, n: int, p: Seq<char>) -> bool {
    exists|i: int, k: int|
        0 <= i < n && 0 <= k < files.len() && (#[trigger] work[i]).rel == p && unlike(
            work[i],
            #[trigger] files[k],
        )
}

proof fn lemma_compared(files: Seq<FileEntryView>, work: Seq<LoadedView>, n: nat)
    requires
        n <= work.len(),
        compared(files, work, n) is Ok,
        distinct_paths(files),
        ascending_paths(work_paths(work)),
    ensures
        ({
            let c = compared(files, work, n)->Ok_0;
            &&& forall|p: Seq<char>| #[trigger]
                c.added.contains(p) <==> work_paths(work.take(n as int)).contains(p)
                    && !file_paths(files).contains(p)
            &&& forall|p: Seq<char>| #[trigger]
                c.modified.contains(p) <==> differs_at(files, work, n as int, p)
            &&& ascending_paths(c.added)
            &&& ascending_paths(c.modified)
        }),
    decreases n,
{
    let c = compared(files, work, n)->Ok_0;
    let seen = work_paths(work.take(n as int));
    if n == 0 {
        assert(seen.len() == 0);
    } else {
        lemma_compared(files, work, (n - 1) as nat);
        let b = compared(files, work, (n - 1) as nat)->Ok_0;
        let f = work[n - 1];
        let before = work_paths(work.take(n - 1));
        assert(seen =~= before.push(f.rel));
        lemma_has_file(files, f.rel);
        lemma_last_index(files, f.rel);
        assert forall|p: Seq<char>| before.contains(p) implies text_before(p, f.rel) by {
            let k = choose|k: int| 0 <= k < before.len() && before[k] == p;
            assert(work_paths(work)[k] == p);
            assert(work_paths(work)[n - 1] == f.rel);
        }
        assert forall|p: Seq<char>| differs_at(files, work, n - 1, p) implies text_before(
            p,
            f.rel,
        ) by {
            let (i, k) = choose|i: int, k: int|
                0 <= i < n - 1 && 0 <= k < files.len() && (#[trigger] work[i]).rel == p && unlike(
                    work[i],
                    #[trigger] files[k],
                );
            assert(before[i] == p);
            assert(before.contains(p));
        }
        assert forall|p: Seq<char>| #[trigger] c.added.contains(p) <==> seen.contains(p)
            && !file_paths(files).contains(p) by {
            lemma_push_contains(before, f.rel, p);
            lemma_push_contains(b.added, f.rel, p);
            assert(b.added.contains(p) <==> before.contains(p) && !file_paths(files).contains(p));
        }
        assert forall|i: int| 0 <= i < b.added.len() implies text_before(
            #[trigger] b.added[i],
            f.rel,
        ) by {
            assert(b.added.contains(b.added[i]));
        }
        lemma_push_ascending(b.added, f.rel);
        assert forall|p: Seq<char>| #[trigger] c.modified.contains(p) <==> differs_at(
            files,
            work,
            n as int,
            p,
        ) by {
            lemma_push_contains(b.modified, f.rel, p);
            assert(b.modified.contains(p) <==> differs_at(files, work, n - 1, p));
            if differs_at(files, work, n as int, p) {
                let (i, k) = choose|i: int, k: int|
                    0 <= i < n && 0 <= k < files.len() && (#[trigger] work[i]).rel == p && unlike(
                        work[i],
                        #[trigger] files[k],
                    );
                if i < n - 1 {
                    assert(unlike(work[i], files[k]));
                    assert(differs_at(files, work, n - 1, p));
                } else {
                    assert(entry_for(files, f.rel) == Some(files[k]));
                }
            }
            if differs_at(files, work, n - 1, p) {
                let (i, k) = choose|i: int, k: int|
                    0 <= i < n - 1 && 0 <= k < files.len() && (#[trigger] work[i]).rel == p
                        && unlike(work[i], #[trigger] files[k]);
                assert(unlike(work[i], files[k]));
            }
            if c.modified.contains(p) && !b.modified.contains(p) {
                let k = last_index(files, f.rel);
                assert(unlike(work[n - 1], files[k]));
            }
        }
        assert forall|i: int| 0 <= i < b.modified.len() implies text_before(
            #[trigger] b.modified[i],
            f.rel,
        ) by {
            assert(b.modified.contains(b.modified[i]));
        }
        lemma_push_ascending(b.modified, f.rel);
    }
}

proof fn lemma_missing(files: Seq<FileEntryView>, work: Seq<LoadedView>, n: nat)
    requires
        n <= files.len(),
        distinct_paths(files),
        in_order(files, |e: FileEntryView| e.rel),
    ensures
        forall|p: Seq<char>| #[trigger]
            missing(files, work, n).contains(p) <==> file_paths(files.take(n as int)).contains(p)
                && !work_paths(work).contains(p),
        ascending_paths(missing(files, work, n)),
    decreases n,
{
    let out = missing(files, work, n);
    let seen = file_paths(files.take(n as int));
    if n == 0 {
        assert(seen.len() == 0);
    } else {
        lemma_missing(files, work, (n - 1) as nat);
        let b = missing(files, work, (n - 1) as nat);
        let e = files[n - 1];
        let before = file_paths(files.take(n - 1));
        assert(seen =~= before.push(e.rel));
        assert(has_path(work, e.rel) <==> work_paths(work).contains(e.rel)) by {
            if has_path(work, e.rel) {
                let i = choose|i: int| 0 <= i < work.len() && (#[trigger] work[i]).rel == e.rel;
                assert(work_paths(work)[i] == e.rel);
            }
            if work_paths(work).contains(e.rel) {
                let i = choose|i: int|
                    0 <= i < work_paths(work).len() && work_paths(work)[i] == e.rel;
                assert(work[i].rel == e.rel);
            }
        }
        assert forall|p: Seq<char>| #[trigger] out.contains(p) <==> seen.contains(p)
            && !work_paths(work).contains(p) by {
            lemma_push_contains(before, e.rel, p);
            lemma_push_contains(b, e.rel, p);
            assert(b.contains(p) <==> before.contains(p) && !work_paths(work).contains(p));
        }
        assert forall|i: int| 0 <= i < b.len() implies text_before(#[trigger] b[i], e.rel) by {
            assert(b.contains(b[i]));
            assert(before.contains(b[i]));
            let k = choose|k: int| 0 <= k < before.len() && before[k] == b[i];
            let key = |e: FileEntryView| e.rel;
            assert(!text_before(key(files[n - 1]), key(files[k])));
            lemma_text_order(files[k].rel, e.rel, e.rel);
            if files[k].rel == e.rel {
                assert(files[k].rel == files[n - 1].rel);
            }
        }
        lemma_push_ascending(b, e.rel);
    }
}

pub(crate) proof fn lemma_changed_paths(s: StoreView, work: Seq<LoadedView>, tree: Seq<char>)
    requires
        tree_changes(s, work, tree) is Ok,
        distinct_paths(snapshot_files(s.objects, tree)->Ok_0),
        ascending_paths(work_paths(work)),
    ensures
        ({
            let c = tree_changes(s, work, tree)->Ok_0;
            changed_paths(
                snapshot_files(s.objects, tree)->Ok_0,
                work,
                c.added,
                c.modified,
                c.deleted,
            )
        }),
{
    let files = snapshot_files(s.objects, tree)->Ok_0;
    let c = tree_changes(s, work, tree)->Ok_0;
    lemma_compared(files, work, work.len());
    assert(work.take(work.len() as int) =~= work);
    let list = crate::snapshot::flat_tree(s.objects, tree, Seq::empty(), s.objects.len())->Ok_0;
    law_sorted_by(list, |e: FileEntryView| e.rel);
    lemma_missing(files, work, files.len());
    assert(files.take(files.len() as int) =~= files);
    assert forall|p: Seq<char>| #[trigger] c.modified.contains(p) <==> exists|i: int, k: int|
        0 <= i < work.len() && 0 <= k < files.len() && (#[trigger] work[i]).rel == p && unlike(
            work[i],
            #[trigger] files[k],
        ) by {
        assert(c.modified.contains(p) <==> differs_at(files, work, work.len() as int, p));
    }
}

/// Paths as the elements of a JSON list.
pub open spec fn json_elements(paths: Seq<Seq<char>>) -> Seq<char> {
    joined_by(paths.map_values(|p: Seq<char>| json_text(p)), ',')
}

/// In the JSON that `status` prints, the list under "added" has exactly the
/// paths where the working tree has a file and the latest turn has none, the
/// list under "deleted" exactly those where the latest turn has a file and the
/// working tree has none, and the list under "modified" exactly those where both
/// have one and they differ. It is clean exactly where all three are empty.
pub proof fn law_status_json_tells_what_changed(s: StoreView, work: Seq<LoadedView>)
    requires
        s.latest() is Some,
        s.snapshot(s.latest()->0) is Ok,
        ({
            let files = snapshot_files(s.objects, s.snapshot(s.latest()->0)->Ok_0.tree);
            files is Ok && distinct_paths(files->Ok_0)
        }),
        ascending_paths(work_paths(work)),
    ensures
        status_output(s, work, true) matches Ok(text) ==> exists|
            added: Seq<Seq<char>>,
            modified: Seq<Seq<char>>,
            deleted: Seq<Seq<char>>,
        | #[trigger]
            changed_paths(
                snapshot_files(s.objects, s.snapshot(s.latest()->0)->Ok_0.tree)->Ok_0,
                work,
                added,
                modified,
                deleted,
            ) && text == "{\"tool\":\"snapref\",\"version\":\"0.1.0\""@ + ",\"against_turn\":"@
                + numeral(s.latest()->0 as nat) + ",\"clean\":"@ + (if added.len() == 0
                && modified.len() == 0 && deleted.len() == 0 {
                "true"@
            } else {
                "false"@
            }) + ",\"added\":["@ + json_elements(added) + "],\"modified\":["@ + json_elements(
                modified,
            ) + "],\"deleted\":["@ + json_elements(deleted) + "]}\n"@,
{
    let tree = s.snapshot(s.latest()->0)->Ok_0.tree;
    if tree_changes(s, work, tree) is Ok {
        let c = tree_changes(s, work, tree)->Ok_0;
        lemma_changed_paths(s, work, tree);
        lemma_envelope();
        assert(json_list(c.added) == json_elements(c.added));
        assert(json_list(c.modified) == json_elements(c.modified));
        assert(json_list(c.deleted) == json_elements(c.deleted));
    }
}

/// How a change is named in the table.
pub open spec fn change_line(path: Seq<char>, what: Seq<char>) -> Seq<char> {
    "  "@ + what + spaces(8 - what.len()) + "  "@ + path + "\n"@
}

/// The rows are the changes, each path with what happened to it, in the order of
/// the paths.
pub open spec fn rows_of_changes(
    rows: Seq<(Seq<char>, Seq<char>)>,
    added: Seq<Seq<char>>,
    modified: Seq<Seq<char>>,
    deleted: Seq<Seq<char>>,
) -> bool {
    &&& rows.len() == added.len() + modified.len() + deleted.len()
    &&& forall|p: Seq<char>, what: Seq<char>| #[trigger]
        rows.contains((p, what)) <==> (what == "added"@ && added.contains(p)) || (what
            == "modified"@ && modified.contains(p)) || (what == "deleted"@ && deleted.contains(p))
    &&& forall|i: int, j: int|
        0 <= i < j < rows.len() ==> !text_before((#[trigger] rows[j]).0, (#[trigger] rows[i]).0)
}

proof fn lemma_rows_text(rows: Seq<RowView>, n: nat)
    requires
        n <= rows.len(),
    ensures
        rows_text(rows, n) == in_a_row(
            rows.take(n as int).map_values(|r: RowView| change_line(r.path, r.tag)),
        ),
    decreases n,
{
    let lines = rows.take(n as int).map_values(|r: RowView| change_line(r.path, r.tag));
    if n > 0 {
        lemma_rows_text(rows, (n - 1) as nat);
        assert(lines.drop_last() =~= rows.take(n - 1).map_values(
            |r: RowView| change_line(r.path, r.tag),
        ));
        let r = rows[n - 1];
        assert("  "@ + left_aligned(r.tag, 8) + "  "@ + r.path + "\n"@ =~= change_line(
            r.path,
            r.tag,
        ));
    }
}

proof fn lemma_tagged(paths: Seq<Seq<char>>, tag: Seq<char>, r: RowView)
    ensures
        tagged(paths, tag).contains(r) <==> r.tag == tag && paths.contains(r.path),
{
    let t = tagged(paths, tag);
    if t.contains(r) {
        let k = choose|k: int| 0 <= k < t.len() && t[k] == r;
        assert(paths[k] == r.path);
    }
    if r.tag == tag && paths.contains(r.path) {
        let k = choose|k: int| 0 <= k < paths.len() && paths[k] == r.path;
        assert(t[k] == r);
    }
}

proof fn lemma_change_rows(c: ChangesView)
    ensures
        ({
            let rows = change_rows(c).map_values(|r: RowView| (r.path, r.tag));
            rows_of_changes(rows, c.added, c.modified, c.deleted)
        }),
{
    let x = tagged(c.added, "added"@);
    let y = tagged(c.deleted, "deleted"@);
    let z = tagged(c.modified, "modified"@);
    let raw = x + y + z;
    let key = |r: RowView| r.path;
    let sorted = change_rows(c);
    let rows = sorted.map_values(|r: RowView| (r.path, r.tag));
    law_sorted_by(raw, key);
    assert forall|p: Seq<char>, what: Seq<char>| #[trigger] rows.contains((p, what)) <==> (what
        == "added"@ && c.added.contains(p)) || (what == "modified"@ && c.modified.contains(p)) || (
    what == "deleted"@ && c.deleted.contains(p)) by {
        let r = RowView { path: p, tag: what };
        lemma_tagged(c.added, "added"@, r);
        lemma_tagged(c.deleted, "deleted"@, r);
        lemma_tagged(c.modified, "modified"@, r);
        if rows.contains((p, what)) {
            let k = choose|k: int| 0 <= k < rows.len() && rows[k] == (p, what);
            assert(sorted[k] == r);
            assert(sorted.contains(r));
            assert(raw.contains(r));
            let m = choose|m: int| 0 <= m < raw.len() && raw[m] == r;
            if m < x.len() {
                assert(x[m] == r);
            } else if m < x.len() + y.len() {
                assert(y[m - x.len()] == r);
            } else {
                assert(z[m - x.len() - y.len()] == r);
            }
        }
        if x.contains(r) || y.contains(r) || z.contains(r) {
            if x.contains(r) {
                let m = choose|m: int| 0 <= m < x.len() && x[m] == r;
                assert(raw[m] == r);
            } else if y.contains(r) {
                let m = choose|m: int| 0 <= m < y.len() && y[m] == r;
                assert(raw[x.len() + m] == r);
            } else {
                let m = choose|m: int| 0 <= m < z.len() && z[m] == r;
                assert(raw[x.len() + y.len() + m] == r);
            }
            assert(raw.contains(r));
            assert(sorted.contains(r));
            let k = choose|k: int| 0 <= k < sorted.len() && sorted[k] == r;
            assert(rows[k] == (p, what));
        }
    }
    assert forall|i: int, j: int| 0 <= i < j < rows.len() implies !text_before(
        (#[trigger] rows[j]).0,
        (#[trigger] rows[i]).0,
    ) by {
        assert(!text_before(key(sorted[j]), key(sorted[i])));
    }
}

/// The table that `status` prints names every added, modified and deleted path
/// with what happened to it, in the order of the paths, and counts them. Where
/// nothing changed it says so.
pub proof fn law_status_table_tells_what_changed(s: StoreView, work: Seq<LoadedView>)
    requires
        s.latest() is Some,
        s.snapshot(s.latest()->0) is Ok,
        ({
            let files = snapshot_files(s.objects, s.snapshot(s.latest()->0)->Ok_0.tree);
            files is Ok && distinct_paths(files->Ok_0)
        }),
        ascending_paths(work_paths(work)),
    ensures
        status_output(s, work, false) matches Ok(text) ==> exists|
            added: Seq<Seq<char>>,
            modified: Seq<Seq<char>>,
            deleted: Seq<Seq<char>>,
            rows: Seq<(Seq<char>, Seq<char>)>,
        |
            #![trigger changed_paths(
                snapshot_files(s.objects, s.snapshot(s.latest()->0)->Ok_0.tree)->Ok_0,
                work,
                added,
                modified,
                deleted,
            ), rows_of_changes(rows, added, modified, deleted)]
            changed_paths(
                snapshot_files(s.objects, s.snapshot(s.latest()->0)->Ok_0.tree)->Ok_0,
                work,
                added,
                modified,
                deleted,
            ) && rows_of_changes(rows, added, modified, deleted) && text == (if rows.len() == 0 {
                "working tree matches turn "@
            } else {
                "comparing working tree against turn "@
            }) + numeral(s.latest()->0 as nat) + " ("@ + short_id(
                s.snapshot(s.latest()->0)->Ok_0.id,
            ) + ")\n"@ + (if rows.len() == 0 {
                Seq::empty()
            } else {
                in_a_row(rows.map_values(|r: (Seq<char>, Seq<char>)| change_line(r.0, r.1)))
                    + numeral(rows.len()) + " change(s): "@ + numeral(added.len()) + " added, "@
                    + numeral(modified.len()) + " modified, "@ + numeral(deleted.len())
                    + " deleted\n"@
            }),
{
    let snap = s.snapshot(s.latest()->0)->Ok_0;
    let tree = snap.tree;
    if tree_changes(s, work, tree) is Ok {
        let c = tree_changes(s, work, tree)->Ok_0;
        lemma_changed_paths(s, work, tree);
        lemma_change_rows(c);
        let sorted = change_rows(c);
        let rows = sorted.map_values(|r: RowView| (r.path, r.tag));
        lemma_rows_text(sorted, sorted.len());
        assert(sorted.take(sorted.len() as int) =~= sorted);
        assert(sorted.map_values(|r: RowView| change_line(r.path, r.tag)) =~= rows.map_values(
            |r: (Seq<char>, Seq<char>)| change_line(r.0, r.1),
        ));
        assert(crate::cli::shortened(snap.id) =~= short_id(snap.id));
        assert(rows.len() == c.total());
        let text = status_text(s.latest()->0, snap.id, c);
        assert(text =~= (if rows.len() == 0 {
            "working tree matches turn "@
        } else {
            "comparing working tree against turn "@
        }) + numeral(s.latest()->0 as nat) + " ("@ + short_id(snap.id) + ")\n"@ + (if rows.len()
            == 0 {
            Seq::empty()
        } else {
            in_a_row(rows.map_values(|r: (Seq<char>, Seq<char>)| change_line(r.0, r.1)))
                + numeral(rows.len()) + " change(s): "@ + numeral(c.added.len()) + " added, "@
                + numeral(c.modified.len()) + " modified, "@ + numeral(c.deleted.len())
                + " deleted\n"@
        }));
        assert(rows_of_changes(rows, c.added, c.modified, c.deleted));
    }
}

} // verus!
