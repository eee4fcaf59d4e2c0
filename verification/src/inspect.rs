//! The commands that look into history: `show` and `blame`.

use vstd::prelude::*;

use crate::args::ShowOptions;
use crate::blame::{
    attribute, attributed, blame_views, file_versions, lemma_versions_have_snapshots,
    path_versions, turn_version_views, version_views, BlameLine, BlameView, Origin,
};
use crate::cli::{
    json_text, op_err, op_fail, short, shortened, text2, text3, truncate, truncated, usage,
    usage_fail, Fail, FailView,
};
use crate::commands::{
    changes_summary, changes_text, envelope, left_aligned, number_or_null, open_envelope, push_json,
    push_joined, push_left, push_number, push_number_or_null, push_right, push_spaces,
    right_aligned, spaces, width_of,
};
use crate::decimal::{decimal, numeral, parse_u64, u64_value};
use crate::diff::{binary, is_binary};
use crate::object::{Snapshot, SnapshotView};
use crate::snapshot::{
    file_at, file_views, files_of, snapshot_file, snapshot_files, FileEntry, FileEntryView,
};
use crate::store::{Store, StoreView};
use crate::text::{
    after_first, before_first, joined_by, lemma_split_first, lossy_text, owned_texts, same,
    split_once, strip_prefix, utf8_lossy,
};
use crate::timefmt::{utc, utc_text};
use crate::tree::file_mode;

verus! {

/// What a command prints: text, or a file's raw bytes.
pub enum ReplyView {
    Text(Seq<char>),
    Bytes(Seq<u8>),
}

/// What a command prints: text, or a file's raw bytes.
#[derive(Debug)]
pub enum Reply {
    Text(String),
    Bytes(Vec<u8>),
}

impl View for Reply {
    type V = ReplyView;

    open spec fn view(&self) -> ReplyView {
        match *self {
            Reply::Text(s) => ReplyView::Text(s@),
            Reply::Bytes(b) => ReplyView::Bytes(b@),
        }
    }
}

/// The first of the turns from place `i` on whose snapshot has the id.
pub open spec fn turn_with_id(s: StoreView, turns: Seq<u64>, i: int, id: Seq<char>) -> Result<
    Option<u64>,
    Seq<char>,
>
    decreases turns.len() - i,
{
    if i < 0 || i >= turns.len() {
        Ok(None)
    } else {
        match s.turn_id(turns[i]) {
            Err(e) => Err(e),
            Ok(found) => if found == id {
                Ok(Some(turns[i]))
            } else {
                turn_with_id(s, turns, i + 1, id)
            },
        }
    }
}

/// The turn whose snapshot has the id.
pub fn turn_of_id(store: &Store, id: &str) -> (r: Result<Option<u64>, String>)
    ensures
        match r {
            Ok(t) => turn_with_id(store@, store@.turns(), 0, id@) == Ok::<Option<u64>, Seq<char>>(
                t,
            ),
            Err(e) => turn_with_id(store@, store@.turns(), 0, id@) == Err::<
                Option<u64>,
                Seq<char>,
            >(e@),
        },
{
    let turns = store.turns();
    let mut i: usize = 0;
    while i < turns.len()
        invariant
            i <= turns@.len(),
            turns@ == store@.turns(),
            turn_with_id(store@, turns@, 0, id@) == turn_with_id(store@, turns@, i as int, id@),
        decreases turns@.len() - i,
    {
        let found = store.turn_id(turns[i])?;
        if same(found.as_str(), id) {
            return Ok(Some(turns[i]));
        }
        i = i + 1;
    }
    Ok(None)
}

/// A file as an entry of a JSON list.
pub open spec fn file_json(f: FileEntryView) -> Seq<char> {
    "{\"mode\":"@ + json_text(file_mode(f.executable)) + ",\"id\":"@ + json_text(f.id)
        + ",\"path\":"@ + json_text(f.rel) + "}"@
}

/// What `show` prints of a snapshot as JSON.
pub open spec fn show_json(
    snap: SnapshotView,
    parent_turn: Option<u64>,
    files: Seq<FileEntryView>,
) -> Seq<char> {
    envelope() + ",\"turn\":"@ + numeral(snap.turn as nat) + ",\"id\":"@ + json_text(snap.id)
        + ",\"time\":"@ + json_text(utc_text(snap.time as int)) + ",\"agent\":"@ + json_text(
        snap.agent,
    ) + ",\"label\":"@ + json_text(snap.label) + ",\"parent_turn\":"@ + number_or_null(parent_turn)
        + ",\"files\":["@ + joined_by(files.map_values(|f: FileEntryView| file_json(f)), ',')
        + "]}\n"@
}

/// The text, or a dash where it is empty.
pub open spec fn or_dash(s: Seq<char>) -> Seq<char> {
    if s.len() == 0 {
        "-"@
    } else {
        s
    }
}

/// The line on a snapshot's parent.
pub open spec fn parent_line(snap: SnapshotView, parent_turn: Option<u64>) -> Seq<char> {
    match (parent_turn, snap.parent) {
        (Some(turn), Some(id)) => "parent:  turn "@ + numeral(turn as nat) + " ("@ + shortened(id)
            + ")\n"@,
        _ => "parent:  none (first snapshot)\n"@,
    }
}

/// The lines of the first `n` files.
pub open spec fn file_lines(files: Seq<FileEntryView>, n: nat) -> Seq<char>
    decreases n,
{
    if n == 0 || n > files.len() {
        Seq::empty()
    } else {
        let f = files[n - 1];
        file_lines(files, (n - 1) as nat) + ("  "@ + file_mode(f.executable) + " "@ + shortened(
            f.id,
        ) + "  "@ + f.rel + "\n"@)
    }
}

/// What `show` prints of a snapshot.
pub open spec fn show_text(
    snap: SnapshotView,
    parent_turn: Option<u64>,
    files: Seq<FileEntryView>,
) -> Seq<char> {
    "snapshot "@ + snap.id + " (turn "@ + numeral(snap.turn as nat) + ")\ntime:    "@ + utc_text(
        snap.time as int,
    ) + "\nagent:   "@ + or_dash(snap.agent) + "\nlabel:   "@ + or_dash(snap.label) + "\n"@
        + parent_line(snap, parent_turn) + "changes: "@ + changes_text(snap.stats) + "\nfiles:   "@
        + numeral(files.len()) + "\n\n"@ + file_lines(files, files.len())
}

/// The text without any `./` at its start.
pub open spec fn without_dot_slash(s: Seq<char>) -> Seq<char>
    decreases s.len(),
{
    if s.len() >= 2 && s[0] == '.' && s[1] == '/' {
        without_dot_slash(s.skip(2))
    } else {
        s
    }
}

/// What `show TURN:PATH` comes to.
pub open spec fn show_file(s: StoreView, turn_text: Seq<char>, path: Seq<char>) -> Result<
    ReplyView,
    FailView,
> {
    match u64_value(turn_text) {
        None => Err(usage_fail("'"@ + turn_text + "' is not a turn number"@)),
        Some(turn) => match s.snapshot(turn) {
            Err(e) => Err(op_fail(e)),
            Ok(snap) => {
                let rel = without_dot_slash(path);
                match snapshot_file(s.objects, snap.tree, rel) {
                    Err(e) => Err(op_fail(e)),
                    Ok(None) => Err(
                        op_fail(
                            "no such file in turn "@ + numeral(turn as nat) + ": "@ + rel,
                        ),
                    ),
                    Ok(Some((bytes, _))) => Ok(ReplyView::Bytes(bytes)),
                }
            },
        },
    }
}

/// What `show TURN` comes to.
pub open spec fn show_snapshot(s: StoreView, target: Seq<char>, json: bool) -> Result<
    ReplyView,
    FailView,
> {
    match u64_value(target) {
        None => Err(usage_fail("'"@ + target + "' is not a turn number"@)),
        Some(turn) => match s.snapshot(turn) {
            Err(e) => Err(op_fail(e)),
            Ok(snap) => match snapshot_files(s.objects, snap.tree) {
                Err(e) => Err(op_fail(e)),
                Ok(files) => {
                    let parent_turn = match snap.parent {
                        Some(id) => turn_with_id(s, s.turns(), 0, id),
                        None => Ok(None),
                    };
                    match parent_turn {
                        Err(e) => Err(op_fail(e)),
                        Ok(t) => if json {
                            Ok(ReplyView::Text(show_json(snap, t, files)))
                        } else {
                            Ok(ReplyView::Text(show_text(snap, t, files)))
                        },
                    }
                },
            },
        },
    }
}

/// What `show` comes to.
pub open spec fn show_output(s: StoreView, target: Seq<char>, json: bool) -> Result<
    ReplyView,
    FailView,
> {
    if target.contains(':') {
        if json {
            Err(
                usage_fail(
                    "'show TURN:PATH' emits the file's raw bytes; --json applies to 'show TURN' only"@,
                ),
            )
        } else {
            show_file(s, before_first(target, ':'), after_first(target, ':'))
        }
    } else {
        show_snapshot(s, target, json)
    }
}

fn strip_dot_slash<'a>(s: &'a str) -> (r: &'a str)
    ensures
        r@ == without_dot_slash(s@),
{
    let mut rest: &'a str = s;
    loop
        invariant
            without_dot_slash(s@) == without_dot_slash(rest@),
        decreases rest@.len(),
    {
        proof {
            reveal_strlit("./");
        }
        match strip_prefix(rest, "./") {
            Some(t) => {
                proof {
                    assert(rest@[0] == '.' && rest@[1] == '/');
                    assert(rest@.skip(2) =~= t@);
                }
                rest = t;
            },
            None => {
                proof {
                    if rest@.len() >= 2 && rest@[0] == '.' && rest@[1] == '/' {
                        assert("./"@ =~= rest@.subrange(0, 2));
                    }
                }
                return rest;
            },
        }
    }
}

fn mode_text(executable: bool) -> (r: &'static str)
    ensures
        r@ == file_mode(executable),
{
    if executable {
        crate::object::MODE_EXEC
    } else {
        crate::object::MODE_FILE
    }
}

fn render_show_json(snap: &Snapshot, parent_turn: Option<u64>, files: &Vec<FileEntry>) -> (r: String)
    ensures
        r@ == show_json(snap@, parent_turn, file_views(files@)),
{
    let ghost v = file_views(files@);
    let ghost target = v.map_values(|f: FileEntryView| file_json(f));
    let mut rows: Vec<String> = Vec::new();
    let mut i: usize = 0;
    while i < files.len()
        invariant
            i <= files@.len(),
            v == file_views(files@),
            target == v.map_values(|f: FileEntryView| file_json(f)),
            rows@.len() == i,
            forall|j: int| 0 <= j < i ==> (#[trigger] rows@[j])@ == target[j],
        decreases files@.len() - i,
    {
        let f = &files[i];
        assert(v[i as int] == f@);
        let mut row = "{\"mode\":".to_string();
        push_json(&mut row, mode_text(f.executable));
        row.append(",\"id\":");
        push_json(&mut row, f.id.as_str());
        row.append(",\"path\":");
        push_json(&mut row, f.rel.as_str());
        row.append("}");
        rows.push(row);
        i = i + 1;
    }
    assert(owned_texts(rows@) =~= target);
    let mut out = open_envelope();
    out.append(",\"turn\":");
    push_number(&mut out, snap.turn);
    out.append(",\"id\":");
    push_json(&mut out, snap.id.as_str());
    out.append(",\"time\":");
    let time = utc(snap.time);
    push_json(&mut out, time.as_str());
    out.append(",\"agent\":");
    push_json(&mut out, snap.agent.as_str());
    out.append(",\"label\":");
    push_json(&mut out, snap.label.as_str());
    out.append(",\"parent_turn\":");
    push_number_or_null(&mut out, parent_turn);
    out.append(",\"files\":[");
    push_joined(&mut out, &rows);
    out.append("]}\n");
    out
}

fn push_or_dash(out: &mut String, s: &str)
    ensures
        final(out)@ == old(out)@ + or_dash(s@),
{
    if s.is_empty() {
        out.append("-");
    } else {
        out.append(s);
    }
}

fn render_parent(snap: &Snapshot, parent_turn: Option<u64>) -> (r: String)
    ensures
        r@ == parent_line(snap@, parent_turn),
{
    match (parent_turn, &snap.parent) {
        (Some(turn), Some(id)) => {
            let mut out = "parent:  turn ".to_string();
            push_number(&mut out, turn);
            out.append(" (");
            let cut = short(id.as_str());
            out.append(cut.as_str());
            out.append(")\n");
            out
        },
        _ => "parent:  none (first snapshot)\n".to_string(),
    }
}

fn push_files(out: &mut String, files: &Vec<FileEntry>)
    ensures
        final(out)@ == old(out)@ + file_lines(file_views(files@), files@.len()),
{
    let ghost v = file_views(files@);
    let ghost start = out@;
    let mut i: usize = 0;
    assert(start + file_lines(v, 0) =~= start);
    while i < files.len()
        invariant
            i <= files@.len(),
            v == file_views(files@),
            out@ == start + file_lines(v, i as nat),
        decreases files@.len() - i,
    {
        let f = &files[i];
        assert(v[i as int] == f@);
        let mut line = "  ".to_string();
        line.append(mode_text(f.executable));
        line.append(" ");
        let cut = short(f.id.as_str());
        line.append(cut.as_str());
        line.append("  ");
        line.append(f.rel.as_str());
        line.append("\n");
        out.append(line.as_str());
        i = i + 1;
        assert(out@ =~= start + file_lines(v, i as nat));
    }
}

fn render_show(snap: &Snapshot, parent_turn: Option<u64>, files: &Vec<FileEntry>) -> (r: String)
    ensures
        r@ == show_text(snap@, parent_turn, file_views(files@)),
{
    let mut out = "snapshot ".to_string();
    out.append(snap.id.as_str());
    out.append(" (turn ");
    push_number(&mut out, snap.turn);
    out.append(")\ntime:    ");
    let time = utc(snap.time);
    out.append(time.as_str());
    out.append("\nagent:   ");
    push_or_dash(&mut out, snap.agent.as_str());
    out.append("\nlabel:   ");
    push_or_dash(&mut out, snap.label.as_str());
    out.append("\n");
    let parent = render_parent(snap, parent_turn);
    out.append(parent.as_str());
    out.append("changes: ");
    let changes = changes_summary(&snap.stats);
    out.append(changes.as_str());
    out.append("\nfiles:   ");
    assert(file_views(files@).len() == files@.len());
    push_number(&mut out, files.len() as u64);
    out.append("\n\n");
    push_files(&mut out, files);
    out
}

fn run_show_file(store: &Store, turn_text: &str, path: &str) -> (r: Result<Reply, Fail>)
    ensures
        match r {
            Ok(reply) => show_file(store@, turn_text@, path@) == Ok::<ReplyView, FailView>(reply@),
            Err(f) => show_file(store@, turn_text@, path@) == Err::<ReplyView, FailView>(f@),
        },
{
    let turn: u64 = match parse_u64(turn_text) {
        Some(n) => n,
        None => {
            return Err(usage(text3("'", turn_text, "' is not a turn number")));
        },
    };
    let snap = match store.snapshot(turn) {
        Ok(s) => s,
        Err(e) => {
            return Err(op_err(e));
        },
    };
    let rel = strip_dot_slash(path);
    match file_at(store, &snap, rel) {
        Err(e) => Err(op_err(e)),
        Ok(Some((bytes, _))) => Ok(Reply::Bytes(bytes)),
        Ok(None) => {
            let mut msg = "no such file in turn ".to_string();
            push_number(&mut msg, turn);
            msg.append(": ");
            msg.append(rel);
            Err(op_err(msg))
        },
    }
}

fn run_show_snapshot(store: &Store, target: &str, json: bool) -> (r: Result<Reply, Fail>)
    ensures
        match r {
            Ok(reply) => show_snapshot(store@, target@, json) == Ok::<ReplyView, FailView>(reply@),
            Err(f) => show_snapshot(store@, target@, json) == Err::<ReplyView, FailView>(f@),
        },
{
    let turn: u64 = match parse_u64(target) {
        Some(n) => n,
        None => {
            return Err(usage(text3("'", target, "' is not a turn number")));
        },
    };
    let snap = match store.snapshot(turn) {
        Ok(s) => s,
        Err(e) => {
            return Err(op_err(e));
        },
    };
    let files = match files_of(store, &snap) {
        Ok(list) => list,
        Err(e) => {
            return Err(op_err(e));
        },
    };
    let parent_turn: Option<u64> = match &snap.parent {
        Some(id) => match turn_of_id(store, id.as_str()) {
            Ok(t) => t,
            Err(e) => {
                return Err(op_err(e));
            },
        },
        None => None,
    };
    if json {
        Ok(Reply::Text(render_show_json(&snap, parent_turn, &files)))
    } else {
        Ok(Reply::Text(render_show(&snap, parent_turn, &files)))
    }
}

/// `show`: snapshot metadata, or a file's exact bytes at a turn.
pub fn cmd_show(store: &Store, o: &ShowOptions) -> (r: Result<Reply, Fail>)
    ensures
        match r {
            Ok(reply) => show_output(store@, o.target@, o.json) == Ok::<ReplyView, FailView>(
                reply@,
            ),
            Err(f) => show_output(store@, o.target@, o.json) == Err::<ReplyView, FailView>(f@),
        },
{
    match split_once(o.target.as_str(), ':') {
        Some((turn_text, path)) => {
            proof {
                lemma_split_first(o.target@, ':', turn_text@, path@);
            }
            if o.json {
                return Err(
                    usage(
                        "'show TURN:PATH' emits the file's raw bytes; --json applies to 'show TURN' only".to_string(),
                    ),
                );
            }
            run_show_file(store, turn_text, path)
        },
        None => run_show_snapshot(store, o.target.as_str(), o.json),
    }
}

/// The versions of a path that recorded turns hold, as blame sees them.
pub open spec fn turn_origins(history: Seq<(u64, Seq<char>)>) -> Seq<(Origin, Seq<char>)> {
    history.map_values(|v: (u64, Seq<char>)| (Origin::Turn(v.0), v.1))
}

/// The versions of a path, oldest first: those of recorded turns, and without
/// `at` also what the working tree holds where it differs from the last one.
pub open spec fn blame_versions(
    s: StoreView,
    rel: Seq<char>,
    at: Option<u64>,
    working: Option<Seq<u8>>,
) -> Result<Seq<(Origin, Seq<char>)>, FailView> {
    if at is Some && s.snapshot(at->0) is Err {
        Err(op_fail(s.snapshot(at->0)->Err_0))
    } else {
        match path_versions(s, rel, at) {
            Err(e) => Err(op_fail(e)),
            Ok(history) => {
                let versions = turn_origins(history);
                match (at, working) {
                    (Some(turn), _) => if versions.len() == 0 {
                        Err(
                            op_fail(
                                "no history for "@ + rel + " before or at turn "@ + numeral(
                                    turn as nat,
                                ),
                            ),
                        )
                    } else {
                        Ok(versions)
                    },
                    (None, Some(bytes)) => if binary(bytes) {
                        Err(op_fail("cannot blame binary file: "@ + rel))
                    } else {
                        Ok(working_version(versions, lossy_text(bytes)))
                    },
                    (None, None) => if versions.len() == 0 {
                        Err(
                            op_fail(
                                "no history for "@ + rel
                                    + " (never snapped, not in the working tree)"@,
                            ),
                        )
                    } else {
                        Err(
                            op_fail(
                                rel
                                    + " is not in the working tree; use --at TURN to blame a past version"@,
                            ),
                        )
                    },
                }
            },
        }
    }
}

/// The turn of an origin, as a table cell.
pub open spec fn turn_cell(o: Origin) -> Seq<char> {
    match o {
        Origin::Turn(t) => "turn "@ + numeral(t as nat),
        Origin::Working => "wt"@,
    }
}

/// The label of an origin, as a table cell.
pub open spec fn label_cell(s: StoreView, o: Origin) -> Seq<char> {
    match o {
        Origin::Turn(t) => truncated(s.snapshot(t)->Ok_0.label, 28),
        Origin::Working => "(not snapped)"@,
    }
}

/// The time of an origin, as a table cell.
pub open spec fn time_cell(s: StoreView, o: Origin) -> Seq<char> {
    match o {
        Origin::Turn(t) => utc_text(s.snapshot(t)->Ok_0.time as int),
        Origin::Working => spaces(20),
    }
}

/// An attributed line as an entry of a JSON list.
pub open spec fn blame_json(s: StoreView, l: BlameView) -> Seq<char> {
    let origin = match l.origin {
        Origin::Turn(t) => numeral(t as nat) + ",\"time\":"@ + json_text(
            utc_text(s.snapshot(t)->Ok_0.time as int),
        ) + ",\"label\":"@ + json_text(s.snapshot(t)->Ok_0.label),
        Origin::Working => "null,\"time\":null,\"label\":null"@,
    };
    "{\"line\":"@ + numeral(l.line) + ",\"turn\":"@ + origin + ",\"text\":"@ + json_text(l.text)
        + "}"@
}

/// The width of the widest turn cell of the first `n` lines.
pub open spec fn turn_cell_width(lines: Seq<BlameView>, n: nat) -> nat
    decreases n,
{
    if n == 0 || n > lines.len() {
        0
    } else {
        let before = turn_cell_width(lines, (n - 1) as nat);
        let here = turn_cell(lines[n - 1].origin).len();
        if here > before {
            here
        } else {
            before
        }
    }
}

/// The width of the widest label cell of the first `n` lines.
pub open spec fn label_cell_width(s: StoreView, lines: Seq<BlameView>, n: nat) -> nat
    decreases n,
{
    if n == 0 || n > lines.len() {
        0
    } else {
        let before = label_cell_width(s, lines, (n - 1) as nat);
        let here = label_cell(s, lines[n - 1].origin).len();
        if here > before {
            here
        } else {
            before
        }
    }
}

/// An attributed line as a table row.
pub open spec fn blame_row(s: StoreView, l: BlameView, tw: int, lw: int, nw: int) -> Seq<char> {
    left_aligned(turn_cell(l.origin), tw) + " | "@ + time_cell(s, l.origin) + " | "@
        + left_aligned(label_cell(s, l.origin), lw) + " | "@ + right_aligned(numeral(l.line), nw)
        + " | "@ + l.text + "\n"@
}

/// The rows of the first `n` lines.
pub open spec fn blame_rows(
    s: StoreView,
    lines: Seq<BlameView>,
    n: nat,
    tw: int,
    lw: int,
    nw: int,
) -> Seq<char>
    decreases n,
{
    if n == 0 || n > lines.len() {
        Seq::empty()
    } else {
        blame_rows(s, lines, (n - 1) as nat, tw, lw, nw) + blame_row(s, lines[n - 1], tw, lw, nw)
    }
}

/// What `blame` prints as JSON.
pub open spec fn blame_json_text(s: StoreView, rel: Seq<char>, lines: Seq<BlameView>) -> Seq<char> {
    envelope() + ",\"path\":"@ + json_text(rel) + ",\"lines\":["@ + joined_by(
        lines.map_values(|l: BlameView| blame_json(s, l)),
        ',',
    ) + "]}\n"@
}

/// What `blame` prints: a table, with columns as wide as their widest cell.
pub open spec fn blame_table(s: StoreView, lines: Seq<BlameView>) -> Seq<char> {
    let n = lines.len();
    let nw = if n == 0 {
        1
    } else {
        numeral(lines.last().line).len()
    };
    blame_rows(
        s,
        lines,
        n,
        turn_cell_width(lines, n) as int,
        label_cell_width(s, lines, n) as int,
        nw as int,
    )
}

/// What `blame` comes to.
pub open spec fn blame_output(
    s: StoreView,
    rel: Seq<char>,
    at: Option<u64>,
    working: Option<Seq<u8>>,
    json: bool,
) -> Result<Seq<char>, FailView> {
    match blame_versions(s, rel, at, working) {
        Err(f) => Err(f),
        Ok(versions) => if json {
            Ok(blame_json_text(s, rel, attributed(versions)))
        } else {
            Ok(blame_table(s, attributed(versions)))
        },
    }
}

/// The bytes of a file, where it can be read.
pub open spec fn option_bytes(b: Option<Vec<u8>>) -> Option<Seq<u8>> {
    match b {
        Some(v) => Some(v@),
        None => None,
    }
}

/// The turns among the versions of a path, with their snapshots.
struct History {
    turns: Vec<u64>,
    snaps: Vec<Snapshot>,
}

impl History {
    /// The snapshots are those of the turns.
    spec fn of(self, s: StoreView) -> bool {
        &&& self.snaps@.len() == self.turns@.len()
        &&& forall|i: int|
            0 <= i < self.turns@.len() ==> s.snapshot(#[trigger] self.turns@[i]) == Ok::<
                SnapshotView,
                Seq<char>,
            >(self.snaps@[i]@)
    }

    /// The origin is one of the turns, or the working tree.
    spec fn knows(self, o: Origin) -> bool {
        o matches Origin::Turn(t) ==> self.turns@.contains(t)
    }

    /// The snapshot of a turn.
    fn snapshot_of(&self, turn: u64, Ghost(s): Ghost<StoreView>) -> (r: &Snapshot)
        requires
            self.of(s),
            self.turns@.contains(turn),
        ensures
            s.snapshot(turn) == Ok::<SnapshotView, Seq<char>>(r@),
    {
        let mut i: usize = 0;
        while i < self.turns.len() - 1 && self.turns[i] != turn
            invariant
                self.of(s),
                self.turns@.contains(turn),
                i < self.turns@.len(),
                forall|j: int| 0 <= j < i ==> self.turns@[j] != turn,
            decreases self.turns@.len() - i,
        {
            i = i + 1;
        }
        proof {
            let k = choose|k: int| 0 <= k < self.turns@.len() && self.turns@[k] == turn;
            assert(self.turns@[i as int] == turn);
        }
        &self.snaps[i]
    }
}

fn render_turn_cell(o: Origin) -> (r: String)
    ensures
        r@ == turn_cell(o),
{
    match o {
        Origin::Turn(t) => {
            let mut s = "turn ".to_string();
            push_number(&mut s, t);
            s
        },
        Origin::Working => "wt".to_string(),
    }
}

fn render_label_cell(h: &History, o: Origin, Ghost(s): Ghost<StoreView>) -> (r: String)
    requires
        h.of(s),
        h.knows(o),
    ensures
        r@ == label_cell(s, o),
{
    match o {
        Origin::Turn(t) => truncate(h.snapshot_of(t, Ghost(s)).label.as_str(), 28),
        Origin::Working => "(not snapped)".to_string(),
    }
}

fn render_time_cell(h: &History, o: Origin, Ghost(s): Ghost<StoreView>) -> (r: String)
    requires
        h.of(s),
        h.knows(o),
    ensures
        r@ == time_cell(s, o),
{
    match o {
        Origin::Turn(t) => utc(h.snapshot_of(t, Ghost(s)).time),
        Origin::Working => {
            let mut gap = String::new();
            push_spaces(&mut gap, 20);
            assert(gap@ =~= spaces(20));
            gap
        },
    }
}

fn render_blame_json_row(h: &History, l: &BlameLine, Ghost(s): Ghost<StoreView>) -> (r: String)
    requires
        h.of(s),
        h.knows(l.origin),
    ensures
        r@ == blame_json(s, l@),
{
    let mut origin = String::new();
    match l.origin {
        Origin::Turn(t) => {
            let snap = h.snapshot_of(t, Ghost(s));
            push_number(&mut origin, t);
            origin.append(",\"time\":");
            let time = utc(snap.time);
            push_json(&mut origin, time.as_str());
            origin.append(",\"label\":");
            push_json(&mut origin, snap.label.as_str());
            assert(origin@ =~= numeral(t as nat) + ",\"time\":"@ + json_text(
                utc_text(snap@.time as int),
            ) + ",\"label\":"@ + json_text(snap@.label));
        },
        Origin::Working => {
            origin.append("null,\"time\":null,\"label\":null");
            assert(origin@ =~= "null,\"time\":null,\"label\":null"@);
        },
    }
    let mut out = "{\"line\":".to_string();
    push_number(&mut out, l.line as u64);
    out.append(",\"turn\":");
    out.append(origin.as_str());
    out.append(",\"text\":");
    push_json(&mut out, l.text.as_str());
    out.append("}");
    out
}

fn render_blame_json(
    h: &History,
    rel: &str,
    lines: &Vec<BlameLine>,
    Ghost(s): Ghost<StoreView>,
) -> (r: String)
    requires
        h.of(s),
        forall|i: int| 0 <= i < lines@.len() ==> h.knows((#[trigger] lines@[i]).origin),
    ensures
        r@ == blame_json_text(s, rel@, blame_views(lines@)),
{
    let ghost v = blame_views(lines@);
    let ghost target = v.map_values(|l: BlameView| blame_json(s, l));
    let mut rows: Vec<String> = Vec::new();
    let mut i: usize = 0;
    while i < lines.len()
        invariant
            i <= lines@.len(),
            h.of(s),
            forall|i: int| 0 <= i < lines@.len() ==> h.knows((#[trigger] lines@[i]).origin),
            v == blame_views(lines@),
            target == v.map_values(|l: BlameView| blame_json(s, l)),
            rows@.len() == i,
            forall|j: int| 0 <= j < i ==> (#[trigger] rows@[j])@ == target[j],
        decreases lines@.len() - i,
    {
        assert(v[i as int] == lines@[i as int]@);
        rows.push(render_blame_json_row(h, &lines[i], Ghost(s)));
        i = i + 1;
    }
    assert(owned_texts(rows@) =~= target);
    let mut out = open_envelope();
    out.append(",\"path\":");
    push_json(&mut out, rel);
    out.append(",\"lines\":[");
    push_joined(&mut out, &rows);
    out.append("]}\n");
    out
}

fn push_blame_row(
    out: &mut String,
    h: &History,
    l: &BlameLine,
    tw: usize,
    lw: usize,
    nw: usize,
    Ghost(s): Ghost<StoreView>,
)
    requires
        h.of(s),
        h.knows(l.origin),
    ensures
        final(out)@ == old(out)@ + blame_row(s, l@, tw as int, lw as int, nw as int),
{
    let mut row = String::new();
    let turn = render_turn_cell(l.origin);
    push_left(&mut row, turn.as_str(), tw);
    assert(row@ =~= left_aligned(turn_cell(l.origin), tw as int));
    row.append(" | ");
    let time = render_time_cell(h, l.origin, Ghost(s));
    row.append(time.as_str());
    row.append(" | ");
    let label = render_label_cell(h, l.origin, Ghost(s));
    push_left(&mut row, label.as_str(), lw);
    row.append(" | ");
    let line = decimal(l.line as u64);
    push_right(&mut row, line.as_str(), nw);
    row.append(" | ");
    row.append(l.text.as_str());
    row.append("\n");
    out.append(row.as_str());
}

fn render_blame_table(h: &History, lines: &Vec<BlameLine>, Ghost(s): Ghost<StoreView>) -> (r: String)
    requires
        h.of(s),
        forall|i: int| 0 <= i < lines@.len() ==> h.knows((#[trigger] lines@[i]).origin),
    ensures
        r@ == blame_table(s, blame_views(lines@)),
{
    let ghost v = blame_views(lines@);
    assert(v.len() == lines@.len());
    let n: usize = lines.len();
    let mut tw: usize = 0;
    let mut lw: usize = 0;
    let mut i: usize = 0;
    while i < n
        invariant
            i <= n,
            n == lines@.len(),
            h.of(s),
            forall|i: int| 0 <= i < lines@.len() ==> h.knows((#[trigger] lines@[i]).origin),
            v == blame_views(lines@),
            tw == turn_cell_width(v, i as nat),
            lw == label_cell_width(s, v, i as nat),
        decreases n - i,
    {
        assert(v[i as int] == lines@[i as int]@);
        let turn = render_turn_cell(lines[i].origin);
        let a: usize = width_of(turn.as_str());
        if a > tw {
            tw = a;
        }
        let label = render_label_cell(h, lines[i].origin, Ghost(s));
        let b: usize = width_of(label.as_str());
        if b > lw {
            lw = b;
        }
        i = i + 1;
    }
    let mut nw: usize = 1;
    if n > 0 {
        let last = decimal(lines[n - 1].line as u64);
        assert(v.last() == lines@[n - 1]@);
        nw = width_of(last.as_str());
    }
    let mut out = String::new();
    let mut k: usize = 0;
    while k < n
        invariant
            k <= n,
            n == lines@.len(),
            h.of(s),
            forall|i: int| 0 <= i < lines@.len() ==> h.knows((#[trigger] lines@[i]).origin),
            v == blame_views(lines@),
            out@ == blame_rows(s, v, k as nat, tw as int, lw as int, nw as int),
        decreases n - k,
    {
        assert(v[k as int] == lines@[k as int]@);
        push_blame_row(&mut out, h, &lines[k], tw, lw, nw, Ghost(s));
        k = k + 1;
    }
    out
}

/// What the working tree's bytes add to the versions of recorded turns.
pub open spec fn working_version(
    versions: Seq<(Origin, Seq<char>)>,
    text: Seq<char>,
) -> Seq<(Origin, Seq<char>)> {
    if versions.len() > 0 && versions.last().1 == text {
        versions
    } else {
        versions.push((Origin::Working, text))
    }
}

/// Add what the working tree holds, where it differs from the last version.
pub fn add_working(versions: &mut Vec<(Origin, String)>, text: String)
    ensures
        version_views(final(versions)@) == working_version(version_views(old(versions)@), text@),
        final(versions)@.len() > 0,
{
    let n: usize = versions.len();
    assert(n > 0 ==> version_views(versions@).last().1 == versions@[n - 1].1@);
    if n > 0 && same(versions[n - 1].1.as_str(), text.as_str()) {
        return;
    }
    versions.push((Origin::Working, text));
    assert(version_views(versions@) =~= version_views(old(versions)@).push(
        (Origin::Working, text@),
    ));
}

fn own_history(history: &Vec<(u64, String)>) -> (r: Vec<(Origin, String)>)
    ensures
        version_views(r@) == turn_origins(turn_version_views(history@)),
        r@.len() == history@.len(),
{
    let ghost target = turn_origins(turn_version_views(history@));
    let mut out: Vec<(Origin, String)> = Vec::new();
    let mut i: usize = 0;
    while i < history.len()
        invariant
            i <= history@.len(),
            target == turn_origins(turn_version_views(history@)),
            out@.len() == i,
            forall|j: int|
                0 <= j < i ==> ((#[trigger] out@[j]).0, out@[j].1@) == target[j],
        decreases history@.len() - i,
    {
        out.push((Origin::Turn(history[i].0), history[i].1.clone()));
        i = i + 1;
    }
    assert(version_views(out@) =~= target);
    out
}

fn load_history(
    store: &Store,
    rel: &str,
    at: Option<u64>,
    history: &Vec<(u64, String)>,
) -> (h: History)
    requires
        path_versions(store@, rel@, at) == Ok::<Seq<(u64, Seq<char>)>, Seq<char>>(
            turn_version_views(history@),
        ),
    ensures
        h.of(store@),
        h.turns@ == history@.map_values(|v: (u64, String)| v.0),
{
    proof {
        lemma_versions_have_snapshots(store@, rel@, at, store@.turns(), store@.turns().len());
    }
    let mut h = History { turns: Vec::new(), snaps: Vec::new() };
    let mut i: usize = 0;
    while i < history.len()
        invariant
            i <= history@.len(),
            forall|k: int|
                0 <= k < turn_version_views(history@).len() ==> store@.snapshot(
                    (#[trigger] turn_version_views(history@)[k]).0,
                ) is Ok,
            h.of(store@),
            h.turns@.len() == i,
            forall|k: int| 0 <= k < i ==> #[trigger] h.turns@[k] == history@[k].0,
        decreases history@.len() - i,
    {
        let turn: u64 = history[i].0;
        assert(turn_version_views(history@)[i as int].0 == turn);
        match store.snapshot(turn) {
            Ok(snap) => {
                h.turns.push(turn);
                h.snaps.push(snap);
            },
            Err(_) => {
                assert(false);
            },
        }
        i = i + 1;
    }
    assert(h.turns@ =~= history@.map_values(|v: (u64, String)| v.0));
    h
}

/// `blame`: attribute each line of a file to the turn that wrote it. `working`
/// is what the working tree holds at the path, where it can be read.
pub fn cmd_blame(
    store: &Store,
    rel: &str,
    at: Option<u64>,
    working: &Option<Vec<u8>>,
    json: bool,
) -> (r: Result<String, Fail>)
    ensures
        match r {
            Ok(text) => blame_output(store@, rel@, at, option_bytes(*working), json) == Ok::<
                Seq<char>,
                FailView,
            >(text@),
            Err(f) => blame_output(store@, rel@, at, option_bytes(*working), json) == Err::<
                Seq<char>,
                FailView,
            >(f@),
        },
{
    // Ensure the turn exists before scanning history.
    match at {
        Some(turn) => match store.snapshot(turn) {
            Ok(_) => {},
            Err(e) => {
                return Err(op_err(e));
            },
        },
        None => {},
    }
    let history = match file_versions(store, rel, at) {
        Ok(list) => list,
        Err(e) => {
            return Err(op_err(e));
        },
    };
    let ghost past = turn_version_views(history@);
    let mut versions = own_history(&history);
    assert(version_views(versions@).len() == versions@.len());
    match at {
        Some(turn) => {
            if versions.len() == 0 {
                let mut msg = text3("no history for ", rel, " before or at turn ");
                push_number(&mut msg, turn);
                return Err(op_err(msg));
            }
        },
        None => match working {
            Some(bytes) => {
                if is_binary(bytes.as_slice()) {
                    return Err(op_err(text2("cannot blame binary file: ", rel)));
                }
                let text = utf8_lossy(bytes.as_slice());
                add_working(&mut versions, text);
            },
            None => {
                if versions.len() == 0 {
                    return Err(
                        op_err(
                            text3(
                                "no history for ",
                                rel,
                                " (never snapped, not in the working tree)",
                            ),
                        ),
                    );
                }
                return Err(
                    op_err(
                        text2(
                            rel,
                            " is not in the working tree; use --at TURN to blame a past version",
                        ),
                    ),
                );
            },
        },
    }
    let ghost all = version_views(versions@);
    assert(blame_versions(store@, rel@, at, option_bytes(*working)) == Ok::<
        Seq<(Origin, Seq<char>)>,
        FailView,
    >(all));
    let lines = attribute(versions.as_slice());
    let h = load_history(store, rel, at, &history);
    proof {
        assert forall|i: int| 0 <= i < lines@.len() implies h.knows(
            (#[trigger] lines@[i]).origin,
        ) by {
            let o = lines@[i].origin;
            assert(crate::blame::written_by(all, all.len(), o, lines@[i].text@));
            let k = choose|k: int|
                0 <= k < all.len() && (#[trigger] all[k]).0 == o && crate::text::lines_of(
                    all[k].1,
                ).contains(lines@[i].text@);
            if let Origin::Turn(t) = o {
                assert(all[k].0 == Origin::Turn(t));
                assert(k < past.len());
                assert(turn_origins(past)[k] == all[k]);
                assert(h.turns@[k] == t);
            }
        }
    }
    if json {
        Ok(render_blame_json(&h, rel, &lines, Ghost(store@)))
    } else {
        Ok(render_blame_table(&h, &lines, Ghost(store@)))
    }
}

} // verus!
