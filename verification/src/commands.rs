//! The commands: what each one does with the store and what it prints, both as
//! tables for humans and as JSON for machines.

use vstd::prelude::*;

use crate::args::{LogOptions, SnapOptions, SnapOptionsView};
use crate::audit::{store_report, verify, FanDir, ReportView};
use crate::cli::{
    description, describe, json_str, json_text, op_err, op_fail, short, shortened, Fail, FailView,
};
use crate::decimal::{decimal, numeral};
use crate::object::{no_changes, Snapshot, SnapshotView, Stats};
use crate::order::{lemma_sorted_map, sort, sorted_by, Keyed};
use crate::restore::{tree_changes, worktree_changes, Changes, ChangesView, RestoreOutcome};
use crate::snapshot::{loaded_views, take, taken, LoadedFile, LoadedView};
use crate::store::{Store, StoreView};
use crate::text::{joined_by, owned_texts};
use crate::timefmt::{utc, utc_text};
use crate::VERSION;

verus! {

/// The start of every JSON document.
pub open spec fn envelope() -> Seq<char> {
    "{\"tool\":\"snapref\",\"version\":"@ + json_text(VERSION@)
}

/// The start of a JSON document.
pub fn open_envelope() -> (r: String)
    ensures
        r@ == envelope(),
{
    let mut out = "{\"tool\":\"snapref\",\"version\":".to_string();
    push_json(&mut out, VERSION);
    out
}

/// Append a number.
pub fn push_number(out: &mut String, n: u64)
    ensures
        final(out)@ == old(out)@ + numeral(n as nat),
{
    let s = decimal(n);
    out.append(s.as_str());
}

/// Append a JSON string.
pub fn push_json(out: &mut String, text: &str)
    ensures
        final(out)@ == old(out)@ + json_text(text@),
{
    let s = json_str(text);
    out.append(s.as_str());
}

/// A number, or `null`.
pub open spec fn number_or_null(n: Option<u64>) -> Seq<char> {
    match n {
        Some(k) => numeral(k as nat),
        None => "null"@,
    }
}

/// Append a number, or `null`.
pub fn push_number_or_null(out: &mut String, n: Option<u64>)
    ensures
        final(out)@ == old(out)@ + number_or_null(n),
{
    match n {
        Some(k) => push_number(out, k),
        None => out.append("null"),
    }
}

/// `true` or `false`.
pub open spec fn bool_text(b: bool) -> Seq<char> {
    if b {
        "true"@
    } else {
        "false"@
    }
}

/// Append `true` or `false`.
pub fn push_bool(out: &mut String, b: bool)
    ensures
        final(out)@ == old(out)@ + bool_text(b),
{
    if b {
        out.append("true");
    } else {
        out.append("false");
    }
}

/// Append the texts, with commas between them.
pub fn push_joined(out: &mut String, rows: &Vec<String>)
    ensures
        final(out)@ == old(out)@ + joined_by(owned_texts(rows@), ','),
{
    let ghost start = out@;
    let ghost v = owned_texts(rows@);
    let mut i: usize = 0;
    assert(v.take(0) =~= Seq::<Seq<char>>::empty());
    assert(start + joined_by(v.take(0), ',') =~= start);
    while i < rows.len()
        invariant
            i <= rows@.len(),
            v == owned_texts(rows@),
            out@ == start + joined_by(v.take(i as int), ','),
        decreases rows@.len() - i,
    {
        let ghost seen = v.take(i + 1);
        proof {
            assert(seen.drop_last() =~= v.take(i as int));
            assert(seen.last() == rows@[i as int]@);
        }
        if i > 0 {
            out.push(',');
        }
        out.append(rows[i].as_str());
        proof {
            if i > 0 {
                assert(out@ =~= start + (joined_by(v.take(i as int), ',').push(',') + rows@[i as int]@));
            } else {
                assert(seen.len() == 1);
                assert(joined_by(v.take(0), ',') =~= Seq::<char>::empty());
                assert(out@ =~= start + seen[0]);
            }
        }
        i = i + 1;
    }
    assert(v.take(v.len() as int) =~= v);
}

/// `n` spaces.
pub open spec fn spaces(n: int) -> Seq<char> {
    Seq::new(
        if n > 0 {
            n as nat
        } else {
            0
        },
        |i: int| ' ',
    )
}

/// The text with spaces in front of it up to a width.
pub open spec fn right_aligned(s: Seq<char>, width: int) -> Seq<char> {
    spaces(width - s.len()) + s
}

/// The text with spaces behind it up to a width.
pub open spec fn left_aligned(s: Seq<char>, width: int) -> Seq<char> {
    s + spaces(width - s.len())
}

/// Append `n` spaces.
pub fn push_spaces(out: &mut String, n: usize)
    ensures
        final(out)@ == old(out)@ + spaces(n as int),
{
    let ghost start = out@;
    let mut i: usize = 0;
    assert(start + spaces(0) =~= start);
    while i < n
        invariant
            i <= n,
            out@ == start + spaces(i as int),
        decreases n - i,
    {
        out.push(' ');
        i = i + 1;
        assert(out@ =~= start + spaces(i as int));
    }
}

/// How many characters a text has.
pub fn width_of(s: &str) -> (r: usize)
    ensures
        r == s@.len(),
{
    crate::text::chars_of(s).len()
}

/// Append a text with spaces in front of it up to a width.
pub fn push_right(out: &mut String, s: &str, width: usize)
    ensures
        final(out)@ == old(out)@ + right_aligned(s@, width as int),
{
    let ghost start = out@;
    let n: usize = width_of(s);
    let gap: usize = if n < width {
        width - n
    } else {
        0
    };
    push_spaces(out, gap);
    out.append(s);
    assert(spaces(gap as int) =~= spaces(width - n));
    assert(out@ =~= start + right_aligned(s@, width as int));
}

/// Append a text with spaces behind it up to a width.
pub fn push_left(out: &mut String, s: &str, width: usize)
    ensures
        final(out)@ == old(out)@ + left_aligned(s@, width as int),
{
    let ghost start = out@;
    let n: usize = width_of(s);
    let gap: usize = if n < width {
        width - n
    } else {
        0
    };
    out.append(s);
    push_spaces(out, gap);
    assert(spaces(gap as int) =~= spaces(width - n));
    assert(out@ =~= start + left_aligned(s@, width as int));
}

/// What `init` prints.
pub open spec fn init_text(created: bool, dir: Seq<char>) -> Seq<char> {
    if created {
        "initialized empty snapref store in "@ + dir + "\n"@
    } else {
        "snapref store already initialized in "@ + dir + "\n"@
    }
}

/// What `init` prints.
pub fn cmd_init(created: bool, dir: &str) -> (r: String)
    ensures
        r@ == init_text(created, dir@),
{
    if created {
        crate::cli::text3("initialized empty snapref store in ", dir, "\n")
    } else {
        crate::cli::text3("snapref store already initialized in ", dir, "\n")
    }
}

/// The statistics as JSON fields.
pub open spec fn stats_json(st: Stats) -> Seq<char> {
    "\"files_added\":"@ + numeral(st.files_added as nat) + ",\"files_modified\":"@ + numeral(
        st.files_modified as nat,
    ) + ",\"files_deleted\":"@ + numeral(st.files_deleted as nat) + ",\"lines_added\":"@ + numeral(
        st.lines_added as nat,
    ) + ",\"lines_removed\":"@ + numeral(st.lines_removed as nat)
}

fn stats_fields(st: &Stats) -> (r: String)
    ensures
        r@ == stats_json(*st),
{
    let mut out = "\"files_added\":".to_string();
    push_number(&mut out, st.files_added);
    out.append(",\"files_modified\":");
    push_number(&mut out, st.files_modified);
    out.append(",\"files_deleted\":");
    push_number(&mut out, st.files_deleted);
    out.append(",\"lines_added\":");
    push_number(&mut out, st.lines_added);
    out.append(",\"lines_removed\":");
    push_number(&mut out, st.lines_removed);
    out
}

/// The changed files in short.
pub open spec fn files_text(st: Stats) -> Seq<char> {
    "+"@ + numeral(st.files_added as nat) + " ~"@ + numeral(st.files_modified as nat) + " -"@
        + numeral(st.files_deleted as nat)
}

fn files_summary(st: &Stats) -> (r: String)
    ensures
        r@ == files_text(*st),
{
    let mut out = "+".to_string();
    push_number(&mut out, st.files_added);
    out.append(" ~");
    push_number(&mut out, st.files_modified);
    out.append(" -");
    push_number(&mut out, st.files_deleted);
    out
}

/// The changed files and lines in short.
pub open spec fn changes_text(st: Stats) -> Seq<char> {
    files_text(st) + " files, +"@ + numeral(st.lines_added as nat) + " -"@ + numeral(
        st.lines_removed as nat,
    ) + " lines"@
}

pub fn changes_summary(st: &Stats) -> (r: String)
    ensures
        r@ == changes_text(*st),
{
    let mut out = files_summary(st);
    out.append(" files, +");
    push_number(&mut out, st.lines_added);
    out.append(" -");
    push_number(&mut out, st.lines_removed);
    out.append(" lines");
    out
}

/// What `snap` prints as JSON.
pub open spec fn snap_json(snap: SnapshotView, previous: Option<u64>) -> Seq<char> {
    envelope() + ",\"turn\":"@ + numeral(snap.turn as nat) + ",\"id\":"@ + json_text(snap.id)
        + ",\"parent_turn\":"@ + number_or_null(previous) + ","@ + stats_json(snap.stats)
        + ",\"agent\":"@ + json_text(snap.agent) + ",\"label\":"@ + json_text(snap.label)
        + ",\"time\":"@ + json_text(utc_text(snap.time as int)) + "}\n"@
}

/// What `snap` prints.
pub open spec fn snap_text(snap: SnapshotView, previous: Option<u64>) -> Seq<char> {
    if snap.stats == no_changes() && previous is Some {
        "turn "@ + numeral(snap.turn as nat) + " snapped "@ + shortened(snap.id)
            + ": no changes since turn "@ + numeral(previous->0 as nat) + "\n"@
    } else {
        "turn "@ + numeral(snap.turn as nat) + " snapped "@ + shortened(snap.id) + ": "@
            + changes_text(snap.stats) + "\n"@
    }
}

fn render_snap_json(snap: &Snapshot, previous: Option<u64>) -> (r: String)
    ensures
        r@ == snap_json(snap@, previous),
{
    let mut out = open_envelope();
    out.append(",\"turn\":");
    push_number(&mut out, snap.turn);
    out.append(",\"id\":");
    push_json(&mut out, snap.id.as_str());
    out.append(",\"parent_turn\":");
    push_number_or_null(&mut out, previous);
    out.append(",");
    let stats = stats_fields(&snap.stats);
    out.append(stats.as_str());
    out.append(",\"agent\":");
    push_json(&mut out, snap.agent.as_str());
    out.append(",\"label\":");
    push_json(&mut out, snap.label.as_str());
    out.append(",\"time\":");
    let time = utc(snap.time);
    push_json(&mut out, time.as_str());
    out.append("}\n");
    out
}

fn render_snap(snap: &Snapshot, previous: Option<u64>) -> (r: String)
    ensures
        r@ == snap_text(snap@, previous),
{
    let mut out = "turn ".to_string();
    push_number(&mut out, snap.turn);
    out.append(" snapped ");
    let id = short(snap.id.as_str());
    out.append(id.as_str());
    match previous {
        Some(n) => {
            if snap.stats.is_empty() {
                out.append(": no changes since turn ");
                push_number(&mut out, n);
                out.append("\n");
                return out;
            }
        },
        None => {},
    }
    out.append(": ");
    let s = changes_summary(&snap.stats);
    out.append(s.as_str());
    out.append("\n");
    out
}

/// The agent of a snapshot: the option, or the one from the environment.
pub open spec fn snap_agent(o: SnapOptionsView, env_agent: Seq<char>) -> Seq<char> {
    match o.agent {
        Some(a) => a,
        None => env_agent,
    }
}

/// `snap`: record the working tree as the next turn.
pub fn cmd_snap(
    store: &mut Store,
    work: &[LoadedFile],
    o: &SnapOptions,
    env_agent: &str,
    time: i64,
) -> (r: Result<String, Fail>)
    requires
        o.turn is None ==> old(store)@.latest() != Some(u64::MAX),
    ensures
        ({
            let (after, outcome) = taken(
                old(store)@,
                loaded_views(work@),
                o@.label,
                snap_agent(o@, env_agent@),
                o.turn,
                time,
            );
            let previous = old(store)@.latest();
            &&& final(store)@ == after
            &&& match outcome {
                Ok(snap) => r matches Ok(text) && text@ == (if o.json {
                    snap_json(snap, previous)
                } else {
                    snap_text(snap, previous)
                }),
                Err(e) => r matches Err(f) && f@ == op_fail(e),
            }
        }),
        final(store).table.extends(old(store).table),
{
    let previous = store.latest();
    let agent = match &o.agent {
        Some(a) => a.as_str(),
        None => env_agent,
    };
    match take(store, work, o.label.as_str(), agent, o.turn, time) {
        Ok(snap) => {
            if o.json {
                Ok(render_snap_json(&snap, previous))
            } else {
                Ok(render_snap(&snap, previous))
            }
        },
        Err(e) => Err(op_err(e)),
    }
}

/// The turns to list: newest first, at most `limit`.
pub open spec fn newest_first(turns: Seq<u64>, limit: Option<u64>) -> Seq<u64> {
    let all = turns.reverse();
    match limit {
        Some(n) if n < all.len() => all.take(n as int),
        _ => all,
    }
}

/// The snapshots of the first `n` of the turns.
pub open spec fn snapshots_of(s: StoreView, turns: Seq<u64>, n: nat) -> Result<
    Seq<SnapshotView>,
    Seq<char>,
>
    decreases n,
{
    if n == 0 || n > turns.len() {
        Ok(Seq::empty())
    } else {
        match snapshots_of(s, turns, (n - 1) as nat) {
            Err(e) => Err(e),
            Ok(before) => match s.snapshot(turns[n - 1]) {
                Err(e) => Err(e),
                Ok(snap) => Ok(before.push(snap)),
            },
        }
    }
}

/// A snapshot as an entry of the JSON log.
pub open spec fn log_json_row(s: SnapshotView) -> Seq<char> {
    "{\"turn\":"@ + numeral(s.turn as nat) + ",\"id\":"@ + json_text(s.id) + ",\"time\":"@
        + json_text(utc_text(s.time as int)) + ","@ + stats_json(s.stats) + ",\"agent\":"@
        + json_text(s.agent) + ",\"label\":"@ + json_text(s.label) + "}"@
}

/// A snapshot as a line of the log, with its turn number `width` wide.
pub open spec fn log_row(s: SnapshotView, width: int) -> Seq<char> {
    "turn "@ + right_aligned(numeral(s.turn as nat), width) + "  "@ + shortened(s.id) + "  "@
        + utc_text(s.time as int) + "  "@ + files_text(s.stats) + "  "@ + description(s) + "\n"@
}

/// The width of the widest turn number among the first `n` snapshots.
pub open spec fn turn_width(snaps: Seq<SnapshotView>, n: nat) -> nat
    decreases n,
{
    if n == 0 || n > snaps.len() {
        0
    } else {
        let before = turn_width(snaps, (n - 1) as nat);
        let here = numeral(snaps[n - 1].turn as nat).len();
        if here > before {
            here
        } else {
            before
        }
    }
}

/// The lines of the first `n` snapshots.
pub open spec fn log_rows(snaps: Seq<SnapshotView>, n: nat, width: int) -> Seq<char>
    decreases n,
{
    if n == 0 || n > snaps.len() {
        Seq::empty()
    } else {
        log_rows(snaps, (n - 1) as nat, width) + log_row(snaps[n - 1], width)
    }
}

/// The contents of a list of snapshots.
pub open spec fn snapshot_views(list: Seq<Snapshot>) -> Seq<SnapshotView> {
    list.map_values(|s: Snapshot| s@)
}

/// What `log` prints.
pub open spec fn log_output(s: StoreView, o: LogOptions) -> Result<Seq<char>, FailView> {
    let turns = newest_first(s.turns(), o.limit);
    match snapshots_of(s, turns, turns.len()) {
        Err(e) => Err(op_fail(e)),
        Ok(snaps) => if o.json {
            Ok(
                envelope() + ",\"turns\":["@ + joined_by(
                    snaps.map_values(|s: SnapshotView| log_json_row(s)),
                    ',',
                ) + "]}\n"@,
            )
        } else if snaps.len() == 0 {
            Ok("no turns recorded yet (run 'snapref snap')\n"@)
        } else {
            Ok(log_rows(snaps, snaps.len(), turn_width(snaps, snaps.len()) as int))
        },
    }
}

fn render_log_json_row(s: &Snapshot) -> (r: String)
    ensures
        r@ == log_json_row(s@),
{
    let mut out = "{\"turn\":".to_string();
    push_number(&mut out, s.turn);
    out.append(",\"id\":");
    push_json(&mut out, s.id.as_str());
    out.append(",\"time\":");
    let time = utc(s.time);
    push_json(&mut out, time.as_str());
    out.append(",");
    let stats = stats_fields(&s.stats);
    out.append(stats.as_str());
    out.append(",\"agent\":");
    push_json(&mut out, s.agent.as_str());
    out.append(",\"label\":");
    push_json(&mut out, s.label.as_str());
    out.append("}");
    out
}

fn push_log_row(out: &mut String, s: &Snapshot, width: usize)
    ensures
        final(out)@ == old(out)@ + log_row(s@, width as int),
{
    let ghost start = out@;
    let mut row = "turn ".to_string();
    let turn = decimal(s.turn);
    push_right(&mut row, turn.as_str(), width);
    row.append("  ");
    let id = short(s.id.as_str());
    row.append(id.as_str());
    row.append("  ");
    let time = utc(s.time);
    row.append(time.as_str());
    row.append("  ");
    let files = files_summary(&s.stats);
    row.append(files.as_str());
    row.append("  ");
    let what = describe(s);
    row.append(what.as_str());
    row.append("\n");
    out.append(row.as_str());
}

proof fn lemma_snapshots_error(s: StoreView, turns: Seq<u64>, n: nat, m: nat)
    requires
        n <= m <= turns.len(),
        snapshots_of(s, turns, n) is Err,
    ensures
        snapshots_of(s, turns, m) == snapshots_of(s, turns, n),
    decreases m,
{
    if n < m {
        lemma_snapshots_error(s, turns, n, (m - 1) as nat);
    }
}

fn load_snapshots(store: &Store, limit: Option<u64>) -> (r: Result<Vec<Snapshot>, String>)
    ensures
        ({
            let turns = newest_first(store@.turns(), limit);
            match r {
                Ok(list) => snapshots_of(store@, turns, turns.len()) == Ok::<
                    Seq<SnapshotView>,
                    Seq<char>,
                >(snapshot_views(list@)),
                Err(e) => snapshots_of(store@, turns, turns.len()) == Err::<
                    Seq<SnapshotView>,
                    Seq<char>,
                >(e@),
            }
        }),
{
    let all = store.turns();
    let ghost turns = newest_first(store@.turns(), limit);
    let total: usize = all.len();
    let count: usize = match limit {
        Some(n) => {
            if n < total as u64 {
                n as usize
            } else {
                total
            }
        },
        None => total,
    };
    assert(turns.len() == count);
    let mut snaps: Vec<Snapshot> = Vec::new();
    let mut i: usize = 0;
    assert(snapshot_views(snaps@) =~= Seq::<SnapshotView>::empty());
    while i < count
        invariant
            i <= count <= total,
            total == all@.len(),
            all@ == store@.turns(),
            turns == newest_first(store@.turns(), limit),
            turns.len() == count,
            snapshots_of(store@, turns, i as nat) == Ok::<Seq<SnapshotView>, Seq<char>>(
                snapshot_views(snaps@),
            ),
        decreases count - i,
    {
        let turn: u64 = all[total - 1 - i];
        assert(turns[i as int] == turn);
        match store.snapshot(turn) {
            Ok(s) => {
                let ghost before = snaps@;
                snaps.push(s);
                assert(snapshot_views(snaps@) =~= snapshot_views(before).push(s@));
            },
            Err(e) => {
                proof {
                    lemma_snapshots_error(store@, turns, (i + 1) as nat, turns.len());
                }
                return Err(e);
            },
        }
        i = i + 1;
    }
    Ok(snaps)
}

/// `log`: list recorded turns, newest first.
pub fn cmd_log(store: &Store, o: &LogOptions) -> (r: Result<String, Fail>)
    ensures
        match r {
            Ok(text) => log_output(store@, *o) == Ok::<Seq<char>, FailView>(text@),
            Err(f) => log_output(store@, *o) == Err::<Seq<char>, FailView>(f@),
        },
{
    let snaps = match load_snapshots(store, o.limit) {
        Ok(list) => list,
        Err(e) => {
            return Err(op_err(e));
        },
    };
    let ghost v = snapshot_views(snaps@);
    if o.json {
        let mut rows: Vec<String> = Vec::new();
        let mut i: usize = 0;
        let ghost target = v.map_values(|s: SnapshotView| log_json_row(s));
        while i < snaps.len()
            invariant
                i <= snaps@.len(),
                v == snapshot_views(snaps@),
                target == v.map_values(|s: SnapshotView| log_json_row(s)),
                rows@.len() == i,
                forall|j: int| 0 <= j < i ==> (#[trigger] rows@[j])@ == target[j],
            decreases snaps@.len() - i,
        {
            assert(v[i as int] == snaps@[i as int]@);
            rows.push(render_log_json_row(&snaps[i]));
            i = i + 1;
        }
        assert(owned_texts(rows@) =~= target);
        let mut out = open_envelope();
        out.append(",\"turns\":[");
        push_joined(&mut out, &rows);
        out.append("]}\n");
        return Ok(out);
    }
    if snaps.len() == 0 {
        return Ok("no turns recorded yet (run 'snapref snap')\n".to_string());
    }
    let mut width: usize = 0;
    let mut i: usize = 0;
    while i < snaps.len()
        invariant
            i <= snaps@.len(),
            v == snapshot_views(snaps@),
            width == turn_width(v, i as nat),
        decreases snaps@.len() - i,
    {
        assert(v[i as int] == snaps@[i as int]@);
        let turn = decimal(snaps[i].turn);
        let n: usize = width_of(turn.as_str());
        if n > width {
            width = n;
        }
        i = i + 1;
    }
    let mut out = String::new();
    let mut k: usize = 0;
    while k < snaps.len()
        invariant
            k <= snaps@.len(),
            v == snapshot_views(snaps@),
            out@ == log_rows(v, k as nat, width as int),
        decreases snaps@.len() - k,
    {
        assert(v[k as int] == snaps@[k as int]@);
        push_log_row(&mut out, &snaps[k], width);
        k = k + 1;
    }
    Ok(out)
}

/// A changed path and how it changed.
pub struct RowView {
    pub path: Seq<char>,
    pub tag: Seq<char>,
}

/// A changed path and how it changed.
struct Row {
    path: String,
    tag: &'static str,
}

impl Row {
    spec fn row(self) -> RowView {
        RowView { path: self.path@, tag: self.tag@ }
    }
}

impl Keyed for Row {
    closed spec fn key(&self) -> Seq<char> {
        self.path@
    }

    fn key_text(&self) -> (r: &str) {
        self.path.as_str()
    }
}

/// The paths, each with the tag.
pub open spec fn tagged(paths: Seq<Seq<char>>, tag: Seq<char>) -> Seq<RowView> {
    paths.map_values(|p: Seq<char>| RowView { path: p, tag })
}

/// All changes in the order of their paths. Several changes of one path are in
/// the order of their tags.
pub open spec fn change_rows(c: ChangesView) -> Seq<RowView> {
    sorted_by(
        tagged(c.added, "added"@) + tagged(c.deleted, "deleted"@) + tagged(
            c.modified,
            "modified"@,
        ),
        |r: RowView| r.path,
    )
}

/// The lines of the first `n` changes.
pub open spec fn rows_text(rows: Seq<RowView>, n: nat) -> Seq<char>
    decreases n,
{
    if n == 0 || n > rows.len() {
        Seq::empty()
    } else {
        let r = rows[n - 1];
        rows_text(rows, (n - 1) as nat) + ("  "@ + left_aligned(r.tag, 8) + "  "@ + r.path + "\n"@)
    }
}

/// The paths as a JSON list, without its brackets.
pub open spec fn json_list(paths: Seq<Seq<char>>) -> Seq<char> {
    joined_by(paths.map_values(|p: Seq<char>| json_text(p)), ',')
}

/// What `status` prints as JSON.
pub open spec fn status_json(turn: u64, c: ChangesView) -> Seq<char> {
    envelope() + ",\"against_turn\":"@ + numeral(turn as nat) + ",\"clean\":"@ + bool_text(
        c.is_empty(),
    ) + ",\"added\":["@ + json_list(c.added) + "],\"modified\":["@ + json_list(c.modified)
        + "],\"deleted\":["@ + json_list(c.deleted) + "]}\n"@
}

/// What `status` prints.
pub open spec fn status_text(turn: u64, id: Seq<char>, c: ChangesView) -> Seq<char> {
    if c.is_empty() {
        "working tree matches turn "@ + numeral(turn as nat) + " ("@ + shortened(id) + ")\n"@
    } else {
        "comparing working tree against turn "@ + numeral(turn as nat) + " ("@ + shortened(id)
            + ")\n"@ + rows_text(change_rows(c), c.total()) + numeral(c.total())
            + " change(s): "@ + numeral(c.added.len()) + " added, "@ + numeral(c.modified.len())
            + " modified, "@ + numeral(c.deleted.len()) + " deleted\n"@
    }
}

/// What `status` comes to.
pub open spec fn status_output(s: StoreView, work: Seq<LoadedView>, json: bool) -> Result<
    Seq<char>,
    FailView,
> {
    match s.latest() {
        None => Err(op_fail("no snapshots yet (run 'snapref snap')"@)),
        Some(latest) => match s.snapshot(latest) {
            Err(e) => Err(op_fail(e)),
            Ok(snap) => match tree_changes(s, work, snap.tree) {
                Err(e) => Err(op_fail(e)),
                Ok(c) => if json {
                    Ok(status_json(latest, c))
                } else {
                    Ok(status_text(latest, snap.id, c))
                },
            },
        },
    }
}

/// Append the paths as a JSON list, without its brackets.
pub fn push_json_list(out: &mut String, paths: &Vec<String>)
    ensures
        final(out)@ == old(out)@ + json_list(owned_texts(paths@)),
{
    let ghost v = owned_texts(paths@);
    let ghost target = v.map_values(|p: Seq<char>| json_text(p));
    let mut rows: Vec<String> = Vec::new();
    let mut i: usize = 0;
    while i < paths.len()
        invariant
            i <= paths@.len(),
            v == owned_texts(paths@),
            target == v.map_values(|p: Seq<char>| json_text(p)),
            rows@.len() == i,
            forall|j: int| 0 <= j < i ==> (#[trigger] rows@[j])@ == target[j],
        decreases paths@.len() - i,
    {
        assert(v[i as int] == paths@[i as int]@);
        rows.push(json_str(paths[i].as_str()));
        i = i + 1;
    }
    assert(owned_texts(rows@) =~= target);
    push_joined(out, &rows);
}

fn push_rows(rows: &mut Vec<Row>, paths: &Vec<String>, tag: &'static str)
    ensures
        final(rows)@.map_values(|r: Row| r.row()) == old(rows)@.map_values(|r: Row| r.row())
            + tagged(owned_texts(paths@), tag@),
        final(rows)@.len() == old(rows)@.len() + paths@.len(),
{
    let ghost start = rows@.map_values(|r: Row| r.row());
    let ghost v = owned_texts(paths@);
    let mut i: usize = 0;
    assert(start + tagged(v.take(0), tag@) =~= start);
    while i < paths.len()
        invariant
            i <= paths@.len(),
            v == owned_texts(paths@),
            rows@.map_values(|r: Row| r.row()) == start + tagged(v.take(i as int), tag@),
            rows@.len() == old(rows)@.len() + i,
        decreases paths@.len() - i,
    {
        let ghost before = rows@;
        assert(v[i as int] == paths@[i as int]@);
        let path = paths[i].clone();
        let ghost one = RowView { path: path@, tag: tag@ };
        rows.push(Row { path, tag });
        i = i + 1;
        proof {
            assert(rows@.map_values(|r: Row| r.row()) =~= before.map_values(|r: Row| r.row()).push(
                one,
            ));
            assert(tagged(v.take(i as int), tag@) =~= tagged(v.take(i - 1), tag@).push(one));
            assert((start + tagged(v.take(i - 1), tag@)).push(one) =~= start + tagged(
                v.take(i - 1),
                tag@,
            ).push(one));
        }
    }
    assert(v.take(v.len() as int) =~= v);
}

fn render_status(turn: u64, id: &str, c: &Changes) -> (r: String)
    ensures
        r@ == status_text(turn, id@, c@),
{
    let cut = short(id);
    if c.is_empty() {
        let mut out = "working tree matches turn ".to_string();
        push_number(&mut out, turn);
        out.append(" (");
        out.append(cut.as_str());
        out.append(")\n");
        return out;
    }
    let mut out = "comparing working tree against turn ".to_string();
    push_number(&mut out, turn);
    out.append(" (");
    out.append(cut.as_str());
    out.append(")\n");
    let mut rows: Vec<Row> = Vec::new();
    assert(rows@.map_values(|r: Row| r.row()) =~= Seq::<RowView>::empty());
    push_rows(&mut rows, &c.added, "added");
    push_rows(&mut rows, &c.deleted, "deleted");
    push_rows(&mut rows, &c.modified, "modified");
    let total: usize = rows.len();
    proof {
        assert(owned_texts(c.added@).len() == c.added@.len());
        assert(owned_texts(c.deleted@).len() == c.deleted@.len());
        assert(owned_texts(c.modified@).len() == c.modified@.len());
        assert(total == c@.total());
        assert(rows@.map_values(|r: Row| r.row()) =~= tagged(c@.added, "added"@) + tagged(
            c@.deleted,
            "deleted"@,
        ) + tagged(c@.modified, "modified"@));
        lemma_sorted_map(rows@, |r: Row| r.key(), |r: Row| r.row(), |r: RowView| r.path);
    }
    let rows = sort(rows);
    let ghost v = change_rows(c@);
    assert(rows@.map_values(|r: Row| r.row()) == v);
    assert(v.len() == rows@.len());
    let ghost head = out@;
    let mut i: usize = 0;
    assert(out@ =~= head + rows_text(v, 0));
    while i < rows.len()
        invariant
            i <= rows@.len(),
            v.len() == rows@.len(),
            rows@.map_values(|r: Row| r.row()) == v,
            out@ == head + rows_text(v, i as nat),
        decreases rows@.len() - i,
    {
        let ghost before = out@;
        let row = &rows[i];
        assert(v[i as int] == rows@.map_values(|r: Row| r.row())[i as int]);
        assert(v[i as int] == row.row());
        let mut line = "  ".to_string();
        push_left(&mut line, row.tag, 8);
        line.append("  ");
        line.append(row.path.as_str());
        line.append("\n");
        out.append(line.as_str());
        i = i + 1;
        assert(out@ =~= head + rows_text(v, i as nat));
    }
    proof {
        crate::order::law_sorted_by(
            tagged(c@.added, "added"@) + tagged(c@.deleted, "deleted"@) + tagged(
                c@.modified,
                "modified"@,
            ),
            |r: RowView| r.path,
        );
        assert(v.len() == total);
    }
    push_number(&mut out, total as u64);
    out.append(" change(s): ");
    push_number(&mut out, c.added.len() as u64);
    out.append(" added, ");
    push_number(&mut out, c.modified.len() as u64);
    out.append(" modified, ");
    push_number(&mut out, c.deleted.len() as u64);
    out.append(" deleted\n");
    out
}

/// `status`: compare the working tree against the latest turn.
pub fn cmd_status(store: &Store, work: &[LoadedFile], json: bool) -> (r: Result<String, Fail>)
    ensures
        match r {
            Ok(text) => status_output(store@, loaded_views(work@), json) == Ok::<
                Seq<char>,
                FailView,
            >(text@),
            Err(f) => status_output(store@, loaded_views(work@), json) == Err::<
                Seq<char>,
                FailView,
            >(f@),
        },
{
    let latest: u64 = match store.latest() {
        Some(n) => n,
        None => {
            return Err(op_err("no snapshots yet (run 'snapref snap')".to_string()));
        },
    };
    let snap = match store.snapshot(latest) {
        Ok(s) => s,
        Err(e) => {
            return Err(op_err(e));
        },
    };
    let c = match worktree_changes(store, work, &snap) {
        Ok(c) => c,
        Err(e) => {
            return Err(op_err(e));
        },
    };
    if json {
        let mut out = open_envelope();
        out.append(",\"against_turn\":");
        push_number(&mut out, latest);
        out.append(",\"clean\":");
        push_bool(&mut out, c.is_empty());
        out.append(",\"added\":[");
        push_json_list(&mut out, &c.added);
        out.append("],\"modified\":[");
        push_json_list(&mut out, &c.modified);
        out.append("],\"deleted\":[");
        push_json_list(&mut out, &c.deleted);
        out.append("]}\n");
        return Ok(out);
    }
    Ok(render_status(latest, snap.id.as_str(), &c))
}

/// What `restore` prints.
pub open spec fn restore_text(
    outcome: RestoreOutcome,
    scoped: bool,
    turn: u64,
    id: Seq<char>,
) -> Seq<char> {
    let head = match outcome.backup {
        Some(b) => "working tree backed up as turn "@ + numeral(b as nat) + "\n"@,
        None => Seq::empty(),
    };
    let place = numeral(turn as nat) + " ("@ + shortened(id) + ")"@;
    head + if scoped {
        "restored "@ + numeral(outcome.written as nat) + " file(s) from turn "@ + place + "\n"@
    } else if outcome.written == 0 && outcome.deleted == 0 {
        "working tree already matches turn "@ + place + "\n"@
    } else {
        "restored working tree to turn "@ + place + ": "@ + numeral(outcome.written as nat)
            + " file(s) written, "@ + numeral(outcome.deleted as nat) + " deleted\n"@
    }
}

/// What `restore` prints. `scoped` says that only given paths were restored.
pub fn restore_report(outcome: &RestoreOutcome, scoped: bool, turn: u64, id: &str) -> (r: String)
    ensures
        r@ == restore_text(*outcome, scoped, turn, id@),
{
    let mut out = String::new();
    match outcome.backup {
        Some(b) => {
            out.append("working tree backed up as turn ");
            push_number(&mut out, b);
            out.append("\n");
        },
        None => {},
    }
    let ghost head = out@;
    let mut place = decimal(turn);
    place.append(" (");
    let cut = short(id);
    place.append(cut.as_str());
    place.append(")");
    let mut tail = String::new();
    if scoped {
        tail.append("restored ");
        push_number(&mut tail, outcome.written as u64);
        tail.append(" file(s) from turn ");
        tail.append(place.as_str());
        tail.append("\n");
    } else if outcome.written == 0 && outcome.deleted == 0 {
        tail.append("working tree already matches turn ");
        tail.append(place.as_str());
        tail.append("\n");
    } else {
        tail.append("restored working tree to turn ");
        tail.append(place.as_str());
        tail.append(": ");
        push_number(&mut tail, outcome.written as u64);
        tail.append(" file(s) written, ");
        push_number(&mut tail, outcome.deleted as u64);
        tail.append(" deleted\n");
    }
    out.append(tail.as_str());
    proof {
        let place = numeral(turn as nat) + " ("@ + shortened(id@) + ")"@;
        assert(out@ =~= restore_text(*outcome, scoped, turn, id@));
    }
    out
}

/// What `verify` prints to standard error: one line per problem.
pub open spec fn problem_lines(problems: Seq<Seq<char>>, n: nat) -> Seq<char>
    decreases n,
{
    if n == 0 || n > problems.len() {
        Seq::empty()
    } else {
        problem_lines(problems, (n - 1) as nat) + ("problem: "@ + problems[n - 1] + "\n"@)
    }
}

/// What `verify` comes to: what it prints to standard error, and its outcome.
pub open spec fn verify_output(report: Result<ReportView, Seq<char>>) -> (
    Seq<char>,
    Result<Seq<char>, FailView>,
) {
    match report {
        Err(e) => (Seq::empty(), Err(op_fail(e))),
        Ok(rep) => if rep.problems.len() == 0 {
            (
                Seq::empty(),
                Ok(
                    "verify OK: "@ + numeral(rep.blobs + rep.trees + rep.snapshots)
                        + " object(s) ("@ + numeral(rep.blobs) + " blobs, "@ + numeral(rep.trees)
                        + " trees, "@ + numeral(rep.snapshots) + " snapshots), "@ + numeral(
                        rep.refs,
                    ) + " turn ref(s)\n"@,
                ),
            )
        } else {
            (
                problem_lines(rep.problems, rep.problems.len()),
                Err(
                    op_fail(
                        "verify failed: "@ + numeral(rep.problems.len()) + " problem(s)"@,
                    ),
                ),
            )
        },
    }
}

/// `verify`: check object-store integrity. Returns what goes to standard error,
/// and the outcome.
pub fn cmd_verify(store: &Store, fans: &Vec<FanDir>) -> (r: (String, Result<String, Fail>))
    requires
        crate::audit::listed(crate::audit::fan_views(fans@)).len() <= usize::MAX,
    ensures
        ({
            let (notes, outcome) = verify_output(
                store_report(store@, crate::audit::fan_views(fans@)),
            );
            &&& r.0@ == notes
            &&& match r.1 {
                Ok(text) => outcome == Ok::<Seq<char>, FailView>(text@),
                Err(f) => outcome == Err::<Seq<char>, FailView>(f@),
            }
        }),
{
    let mut notes = String::new();
    let report = match verify(store, fans) {
        Ok(rep) => rep,
        Err(e) => {
            return (notes, Err(op_err(e)));
        },
    };
    let ghost v = owned_texts(report.problems@);
    assert(v.len() == report.problems@.len());
    if report.problems.len() == 0 {
        proof {
            crate::audit::lemma_report_counts(store@, crate::audit::fan_views(fans@));
        }
        let mut out = "verify OK: ".to_string();
        push_number(&mut out, report.total() as u64);
        out.append(" object(s) (");
        push_number(&mut out, report.blobs as u64);
        out.append(" blobs, ");
        push_number(&mut out, report.trees as u64);
        out.append(" trees, ");
        push_number(&mut out, report.snapshots as u64);
        out.append(" snapshots), ");
        push_number(&mut out, report.refs as u64);
        out.append(" turn ref(s)\n");
        return (notes, Ok(out));
    }
    let mut i: usize = 0;
    while i < report.problems.len()
        invariant
            i <= report.problems@.len(),
            v == owned_texts(report.problems@),
            notes@ == problem_lines(v, i as nat),
        decreases report.problems@.len() - i,
    {
        assert(v[i as int] == report.problems@[i as int]@);
        let line = crate::cli::text3("problem: ", report.problems[i].as_str(), "\n");
        notes.append(line.as_str());
        i = i + 1;
    }
    let mut msg = "verify failed: ".to_string();
    push_number(&mut msg, report.problems.len() as u64);
    msg.append(" problem(s)");
    (notes, Err(op_err(msg)))
}

} // verus!
