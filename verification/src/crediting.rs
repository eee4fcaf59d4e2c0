//! What blame prints: every line of a file, charged to the turn that wrote it.
//! Who wrote a line is told turn by turn here: a line that the diff between two
//! states of the file keeps has the writer that it had before, and every other
//! line has the later state as its writer.

use vstd::prelude::*;

use crate::blame::{
    attributed, attribution, carried, law_every_line_has_an_origin, path_versions, versions_in,
    BlameView, Origin,
};
use crate::cli::json_text;
use crate::commands::spaces;
use crate::decimal::numeral;
use crate::diff::{
    binary, law_identical_inputs_are_one_run, law_line_script_is_shortest, line_script, Op,
};
use crate::inspect::{
    blame_json, blame_json_text, blame_output, blame_row, blame_rows, blame_table, blame_versions,
    label_cell, label_cell_width, time_cell, turn_cell, turn_cell_width, turn_origins,
    working_version,
};
use crate::reporting::{as_wide_as, lemma_wider};
use crate::script::{fits, new_total, old_total};
use crate::snapshot::snapshot_file;
use crate::store::StoreView;
use crate::text::{joined_by, lines_of, lossy_text};
use crate::timefmt::utc_text;

verus! {

/// The script keeps line `i` of the old side as line `j` of the new side.
pub open spec fn keeps(ops: Seq<Op>, i: int, j: int) -> bool {
    exists|k: int|
        0 <= k < ops.len() && (#[trigger] ops[k]) is Equal && 0 <= i - old_total(ops.take(k)) < (
        ops[k]->Equal_0) && i - old_total(ops.take(k)) == j - new_total(ops.take(k))
}

/// The writers after a text changed from `old` to `new`: a line that the
/// shortest edit script keeps has the writer it had, every other line was
/// written by `origin`.
pub open spec fn writers_after(
    old: Seq<char>,
    writers: Seq<Origin>,
    new: Seq<char>,
    origin: Origin,
) -> Seq<Origin> {
    let ops = line_script(lines_of(old), lines_of(new));
    Seq::new(
        lines_of(new).len(),
        |j: int|
            if exists|i: int| #[trigger] keeps(ops, i, j) {
                writers[choose|i: int| #[trigger] keeps(ops, i, j)]
            } else {
                origin
            },
    )
}

/// The text of a file at a turn, if it is there.
pub open spec fn text_at(s: StoreView, rel: Seq<char>, turn: u64) -> Option<Seq<char>> {
    match s.snapshot(turn) {
        Ok(snap) => match snapshot_file(s.objects, snap.tree, rel) {
            Ok(Some((bytes, _))) => Some(lossy_text(bytes)),
            _ => None,
        },
        Err(_) => None,
    }
}

/// What the first `n` turns that are not above the cap leave of a file: its
/// text where one of them has it, and the writer of each of its lines.
pub open spec fn history_of(
    s: StoreView,
    rel: Seq<char>,
    cap: Option<u64>,
    turns: Seq<u64>,
    n: nat,
) -> Option<(Seq<char>, Seq<Origin>)>
    decreases n,
{
    if n == 0 || n > turns.len() {
        None
    } else {
        let before = history_of(s, rel, cap, turns, (n - 1) as nat);
        let turn = turns[n - 1];
        if cap matches Some(c) && turn > c {
            before
        } else {
            match (text_at(s, rel, turn), before) {
                (None, _) => before,
                (Some(text), None) => Some(
                    (text, Seq::new(lines_of(text).len(), |i: int| Origin::Turn(turn))),
                ),
                (Some(text), Some((old, writers))) => Some(
                    (text, writers_after(old, writers, text, Origin::Turn(turn))),
                ),
            }
        }
    }
}

/// What blame is about: the state of a file at the cap, or without a cap what
/// the working tree holds, each line with its writer.
pub open spec fn blamed(
    s: StoreView,
    rel: Seq<char>,
    cap: Option<u64>,
    working: Option<Seq<u8>>,
) -> Option<(Seq<char>, Seq<Origin>)> {
    let past = history_of(s, rel, cap, s.turns(), s.turns().len());
    match (cap, working) {
        (Some(_), _) => past,
        (None, None) => None,
        (None, Some(bytes)) => {
            let text = lossy_text(bytes);
            match past {
                None => Some((text, Seq::new(lines_of(text).len(), |i: int| Origin::Working))),
                Some((old, writers)) => Some(
                    (text, writers_after(old, writers, text, Origin::Working)),
                ),
            }
        },
    }
}

/// Every text in memory has fewer lines than a `usize` can count.
pub open spec fn countable_texts(s: StoreView, rel: Seq<char>, working: Option<Seq<u8>>) -> bool {
    &&& forall|t: u64|
        (#[trigger] text_at(s, rel, t)) is Some ==> lines_of(text_at(s, rel, t)->0).len()
            <= usize::MAX
    &&& working matches Some(bytes) ==> lines_of(lossy_text(bytes)).len() <= usize::MAX
}

proof fn lemma_keeps_push(ops: Seq<Op>, i: int, j: int)
    requires
        ops.len() > 0,
    ensures
        keeps(ops, i, j) <==> keeps(ops.drop_last(), i, j) || (ops.last() is Equal && 0 <= i
            - old_total(ops.drop_last()) < ops.last()->Equal_0 && i - old_total(ops.drop_last())
            == j - new_total(ops.drop_last())),
{
    let done = ops.drop_last();
    let last = ops.len() - 1;
    assert(ops.take(last) =~= done);
    assert forall|k: int| 0 <= k < last implies ops.take(k) =~= #[trigger] done.take(k) by {}
    if keeps(ops, i, j) {
        let k = choose|k: int|
            0 <= k < ops.len() && (#[trigger] ops[k]) is Equal && 0 <= i - old_total(ops.take(k))
                < (ops[k]->Equal_0) && i - old_total(ops.take(k)) == j - new_total(ops.take(k));
        if k < last {
            assert(done[k] == ops[k]);
            assert(done.take(k) =~= ops.take(k));
        }
    }
    if keeps(done, i, j) {
        let k = choose|k: int|
            0 <= k < done.len() && (#[trigger] done[k]) is Equal && 0 <= i - old_total(done.take(k))
                < (done[k]->Equal_0) && i - old_total(done.take(k)) == j - new_total(done.take(k));
        assert(ops[k] == done[k]);
        assert(done.take(k) =~= ops.take(k));
    }
    if ops.last() is Equal && 0 <= i - old_total(done) < ops.last()->Equal_0 && i - old_total(done)
        == j - new_total(done) {
        assert(ops[last] is Equal);
    }
}

/// Carrying an attribution over a script is charging kept lines to whom they
/// were charged before and all others to the new state.
proof fn lemma_carried<T>(attr: Seq<Origin>, ops: Seq<Op>, o: Origin, a: Seq<T>, b: Seq<T>)
    requires
        fits(ops, a, b),
        attr.len() == a.len(),
    ensures
        carried(attr, ops, o).len() == new_total(ops),
        old_total(ops) <= a.len(),
        forall|i: int, j: int|
            0 <= j && #[trigger] keeps(ops, i, j) ==> 0 <= i < old_total(ops) && j < new_total(ops)
                && carried(attr, ops, o)[j] == attr[i],
        forall|j: int|
            0 <= j < new_total(ops) && (forall|i: int| !#[trigger] keeps(ops, i, j)) ==> (
            #[trigger] carried(attr, ops, o)[j]) == o,
        forall|i: int, j: int| #[trigger] keeps(ops, i, j) ==> 0 <= j,
    decreases ops.len(),
{
    if ops.len() > 0 {
        let done = ops.drop_last();
        lemma_carried(attr, done, o, a, b);
        let x = old_total(done);
        let y = new_total(done);
        let before = carried(attr, done, o);
        let out = carried(attr, ops, o);
        assert forall|i: int, j: int| #[trigger] keeps(ops, i, j) implies 0 <= j && 0 <= i
            < old_total(ops) && j < new_total(ops) && out[j] == attr[i] by {
            lemma_keeps_push(ops, i, j);
            if keeps(done, i, j) {
                assert(out[j] == before[j]);
            } else {
                assert(out[j] == attr.subrange(x as int, x + ops.last()->Equal_0)[j - y]);
            }
        }
        assert forall|j: int|
            0 <= j < new_total(ops) && (forall|i: int| !#[trigger] keeps(ops, i, j)) implies (
        #[trigger] out[j]) == o by {
            if j < y {
                assert forall|i: int| !#[trigger] keeps(done, i, j) by {
                    lemma_keeps_push(ops, i, j);
                    assert(!keeps(ops, i, j));
                }
                assert(out[j] == before[j]);
            } else {
                lemma_keeps_push(ops, j - y + x, j);
                assert(!keeps(ops, j - y + x, j));
            }
        }
    }
}

proof fn lemma_writers_after(
    old: Seq<char>,
    writers: Seq<Origin>,
    new: Seq<char>,
    origin: Origin,
)
    requires
        writers.len() == lines_of(old).len(),
        lines_of(old).len() <= usize::MAX,
        lines_of(new).len() <= usize::MAX,
    ensures
        writers_after(old, writers, new, origin) == carried(
            writers,
            line_script(lines_of(old), lines_of(new)),
            origin,
        ),
{
    let a = lines_of(old);
    let b = lines_of(new);
    let ops = line_script(a, b);
    law_line_script_is_shortest(a, b);
    lemma_carried(writers, ops, origin, a, b);
    let w = writers_after(old, writers, new, origin);
    let c = carried(writers, ops, origin);
    assert forall|j: int| 0 <= j < w.len() implies w[j] == c[j] by {
        if exists|i: int| #[trigger] keeps(ops, i, j) {
            let i = choose|i: int| #[trigger] keeps(ops, i, j);
            assert(keeps(ops, i, j));
        } else {
            assert forall|i: int| !#[trigger] keeps(ops, i, j) by {}
            assert(c[j] == origin);
        }
    }
    assert(w =~= c);
}

/// A state that did not change keeps its writers.
proof fn lemma_same_text_keeps_writers(text: Seq<char>, writers: Seq<Origin>, origin: Origin)
    requires
        writers.len() == lines_of(text).len(),
        lines_of(text).len() <= usize::MAX,
    ensures
        writers_after(text, writers, text, origin) == writers,
{
    let a = lines_of(text);
    let n = a.len() as int;
    lemma_writers_after(text, writers, text, origin);
    law_identical_inputs_are_one_run(a);
    let ops = line_script(a, a);
    let c = carried(writers, ops, origin);
    if n > 0 {
        assert(ops.drop_last() =~= Seq::<Op>::empty());
        assert(carried(writers, Seq::<Op>::empty(), origin) =~= Seq::<Origin>::empty());
        assert(c =~= writers);
    } else {
        assert(c =~= writers);
    }
}

/// The versions of a path and the attribution of the last one tell the same
/// history as the turns do one by one.
proof fn lemma_history(
    s: StoreView,
    rel: Seq<char>,
    cap: Option<u64>,
    turns: Seq<u64>,
    n: nat,
)
    requires
        n <= turns.len(),
        versions_in(s, rel, cap, turns, n) is Ok,
        countable_texts(s, rel, None),
    ensures
        ({
            let v = turn_origins(versions_in(s, rel, cap, turns, n)->Ok_0);
            let h = history_of(s, rel, cap, turns, n);
            &&& forall|i: int|
                0 <= i < v.len() ==> lines_of((#[trigger] v[i]).1).len() <= usize::MAX
            &&& match h {
                None => v.len() == 0,
                Some((text, writers)) => v.len() > 0 && v.last().1 == text && writers
                    == attribution(v, v.len()) && writers.len() == lines_of(text).len(),
            }
        }),
    decreases n,
{
    if n > 0 {
        let m = (n - 1) as nat;
        lemma_history(s, rel, cap, turns, m);
        let turn = turns[n - 1];
        let past = versions_in(s, rel, cap, turns, m)->Ok_0;
        let before = turn_origins(past);
        let list = versions_in(s, rel, cap, turns, n)->Ok_0;
        let v = turn_origins(list);
        let h = history_of(s, rel, cap, turns, m);
        assert(before.len() == past.len());
        if !(cap matches Some(c) && turn > c) {
            if let Some(text) = text_at(s, rel, turn) {
                assert(lines_of(text_at(s, rel, turn)->0).len() <= usize::MAX);
                if past.len() == 0 {
                    assert(h is None);
                    assert(list =~= seq![(turn, text)]);
                    assert(v =~= seq![(Origin::Turn(turn), text)]);
                    assert(attribution(v, 1) =~= Seq::new(
                        lines_of(text).len(),
                        |i: int| Origin::Turn(turn),
                    ));
                } else {
                    let (old, writers) = h->0;
                    assert(before[past.len() - 1].1 == past[past.len() - 1].1);
                    if past.last().1 == text {
                        lemma_same_text_keeps_writers(text, writers, Origin::Turn(turn));
                    } else {
                        assert(list == past.push((turn, text)));
                        assert(v =~= before.push((Origin::Turn(turn), text)));
                        lemma_attribution_prefix(before, v, before.len());
                        lemma_writers_after(old, writers, text, Origin::Turn(turn));
                        assert(v[v.len() - 2] == before[before.len() - 1]);
                        assert forall|i: int| 0 <= i < v.len() implies lines_of(
                            (#[trigger] v[i]).1,
                        ).len() <= usize::MAX by {
                            if i < before.len() {
                                assert(v[i] == before[i]);
                            }
                        }
                        law_every_line_has_an_origin(v, v.len());
                    }
                }
            }
        }
    }
}

proof fn lemma_attribution_prefix(
    a: Seq<(Origin, Seq<char>)>,
    b: Seq<(Origin, Seq<char>)>,
    n: nat,
)
    requires
        n <= a.len() <= b.len(),
        forall|i: int| 0 <= i < a.len() ==> #[trigger] a[i] == b[i],
    ensures
        attribution(a, n) == attribution(b, n),
    decreases n,
{
    if n > 1 {
        lemma_attribution_prefix(a, b, (n - 1) as nat);
        assert(a[n - 1] == b[n - 1] && a[n - 2] == b[n - 2]);
    } else if n == 1 {
        assert(a[0] == b[0]);
        assert(attribution(a, n) =~= attribution(b, n));
    }
}

/// The attributed lines of what is blamed.
proof fn lemma_blamed(
    s: StoreView,
    rel: Seq<char>,
    cap: Option<u64>,
    working: Option<Seq<u8>>,
)
    requires
        blame_versions(s, rel, cap, working) is Ok,
        countable_texts(s, rel, working),
    ensures
        ({
            let lines = attributed(blame_versions(s, rel, cap, working)->Ok_0);
            &&& blamed(s, rel, cap, working) is Some
            &&& blamed_lines(s, rel, cap, working, lines)
        }),
{
    let turns = s.turns();
    lemma_history(s, rel, cap, turns, turns.len());
    let past = turn_origins(path_versions(s, rel, cap)->Ok_0);
    let v = blame_versions(s, rel, cap, working)->Ok_0;
    if cap is None {
        let text = lossy_text(working->0);
        let h = history_of(s, rel, cap, turns, turns.len());
        if h is None {
            assert(v =~= seq![(Origin::Working, text)]);
            assert(attribution(v, 1) =~= Seq::new(
                lines_of(text).len(),
                |i: int| Origin::Working,
            ));
        } else {
            let (old, writers) = h->0;
            assert(past[past.len() - 1] == past.last());
            if past.last().1 == text {
                lemma_same_text_keeps_writers(text, writers, Origin::Working);
            } else {
                lemma_attribution_prefix(past, v, past.len());
                lemma_writers_after(old, writers, text, Origin::Working);
                assert(v[v.len() - 2] == past[past.len() - 1]);
            }
        }
    }
}

/// The lines of what is blamed, numbered from one, each with its writer.
pub open spec fn blamed_lines(
    s: StoreView,
    rel: Seq<char>,
    cap: Option<u64>,
    working: Option<Seq<u8>>,
    lines: Seq<BlameView>,
) -> bool {
    let (text, writers) = blamed(s, rel, cap, working)->0;
    &&& lines.len() == lines_of(text).len()
    &&& writers.len() == lines_of(text).len()
    &&& forall|i: int|
        0 <= i < lines.len() ==> (#[trigger] lines[i]).text == lines_of(text)[i] && lines[i].line
            == i + 1 && lines[i].origin == writers[i]
}

/// A blamed line in the JSON list: its number, its turn with that turn's time
/// and label, or null for what no turn has, and its text.
pub open spec fn json_line(s: StoreView, l: BlameView) -> Seq<char> {
    "{\"line\":"@ + numeral(l.line) + ",\"turn\":"@ + match l.origin {
        Origin::Turn(t) => numeral(t as nat),
        Origin::Working => "null"@,
    } + ",\"time\":"@ + match l.origin {
        Origin::Turn(t) => json_text(utc_text(s.snapshot(t)->Ok_0.time as int)),
        Origin::Working => "null"@,
    } + ",\"label\":"@ + match l.origin {
        Origin::Turn(t) => json_text(s.snapshot(t)->Ok_0.label),
        Origin::Working => "null"@,
    } + ",\"text\":"@ + json_text(l.text) + "}"@
}

/// The name of a writer in the table.
pub open spec fn writer_name(o: Origin) -> Seq<char> {
    match o {
        Origin::Turn(t) => "turn "@ + numeral(t as nat),
        Origin::Working => "wt"@,
    }
}

/// The time of a writer in the table; the working tree has none.
pub open spec fn writer_time(s: StoreView, o: Origin) -> Seq<char> {
    match o {
        Origin::Turn(t) => utc_text(s.snapshot(t)->Ok_0.time as int),
        Origin::Working => Seq::new(20, |i: int| ' '),
    }
}

/// The label of a writer in the table, cut where it is longer than its column.
pub open spec fn writer_label(s: StoreView, o: Origin) -> Seq<char> {
    match o {
        Origin::Turn(t) => {
            let label = s.snapshot(t)->Ok_0.label;
            if label.len() <= 28 {
                label
            } else {
                label.take(26) + ".."@
            }
        },
        Origin::Working => "(not snapped)"@,
    }
}

/// The rows of the table, with cells filled up to the widths of their columns.
pub open spec fn table(
    s: StoreView,
    lines: Seq<BlameView>,
    wide: (int, int, int),
) -> Seq<char>
    decreases lines.len(),
{
    if lines.len() == 0 {
        Seq::empty()
    } else {
        let l = lines.last();
        let name = writer_name(l.origin);
        let label = writer_label(s, l.origin);
        let number = numeral(l.line);
        table(s, lines.drop_last(), wide) + (name + spaces(wide.0 - name.len()) + " | "@
            + writer_time(s, l.origin) + " | "@ + label + spaces(wide.1 - label.len()) + " | "@
            + spaces(wide.2 - number.len()) + number + " | "@ + l.text + "\n"@)
    }
}

/// The columns of the table are as wide as the widest of their cells.
pub open spec fn aligned(s: StoreView, lines: Seq<BlameView>, wide: (int, int, int)) -> bool {
    &&& as_wide_as(lines.map_values(|l: BlameView| writer_name(l.origin)), wide.0)
    &&& as_wide_as(lines.map_values(|l: BlameView| writer_label(s, l.origin)), wide.1)
    &&& as_wide_as(lines.map_values(|l: BlameView| numeral(l.line)), wide.2)
}

proof fn lemma_turn_cells(lines: Seq<BlameView>, n: nat)
    requires
        n <= lines.len(),
    ensures
        as_wide_as(
            lines.take(n as int).map_values(|l: BlameView| writer_name(l.origin)),
            turn_cell_width(lines, n) as int,
        ),
    decreases n,
{
    let f = |l: BlameView| writer_name(l.origin);
    if n > 0 {
        lemma_turn_cells(lines, (n - 1) as nat);
        let before = lines.take(n - 1).map_values(f);
        let cell = writer_name(lines[n - 1].origin);
        assert(turn_cell(lines[n - 1].origin) =~= cell);
        lemma_wider(before, turn_cell_width(lines, (n - 1) as nat) as int, cell);
        assert(lines.take(n as int).map_values(f) =~= before.push(cell));
    }
}

proof fn lemma_label_cells(s: StoreView, lines: Seq<BlameView>, n: nat)
    requires
        n <= lines.len(),
    ensures
        as_wide_as(
            lines.take(n as int).map_values(|l: BlameView| writer_label(s, l.origin)),
            label_cell_width(s, lines, n) as int,
        ),
    decreases n,
{
    let f = |l: BlameView| writer_label(s, l.origin);
    if n > 0 {
        lemma_label_cells(s, lines, (n - 1) as nat);
        let before = lines.take(n - 1).map_values(f);
        let cell = writer_label(s, lines[n - 1].origin);
        assert(label_cell(s, lines[n - 1].origin) =~= cell);
        lemma_wider(before, label_cell_width(s, lines, (n - 1) as nat) as int, cell);
        assert(lines.take(n as int).map_values(f) =~= before.push(cell));
    }
}

proof fn lemma_longer_numeral(m: nat, n: nat)
    requires
        m <= n,
    ensures
        numeral(m).len() <= numeral(n).len(),
        numeral(n).len() > 0,
    decreases n,
{
    if n >= 10 {
        if m >= 10 {
            lemma_longer_numeral(m / 10, n / 10);
        } else {
            lemma_longer_numeral(0, n / 10);
        }
    }
}

proof fn lemma_number_cells(lines: Seq<BlameView>, nw: int)
    requires
        forall|i: int| 0 <= i < lines.len() ==> (#[trigger] lines[i]).line == i + 1,
        lines.len() > 0 ==> nw == numeral(lines.last().line).len(),
    ensures
        as_wide_as(lines.map_values(|l: BlameView| numeral(l.line)), nw),
{
    let cells = lines.map_values(|l: BlameView| numeral(l.line));
    assert forall|i: int| 0 <= i < cells.len() implies (#[trigger] cells[i]).len() <= nw by {
        assert(lines[i].line == i + 1);
        assert(lines[lines.len() - 1].line == lines.len());
        lemma_longer_numeral(lines[i].line, lines.last().line);
    }
    if cells.len() > 0 {
        assert(cells[cells.len() - 1].len() == nw);
    }
}

proof fn lemma_json_rows(s: StoreView, lines: Seq<BlameView>)
    ensures
        lines.map_values(|l: BlameView| blame_json(s, l)) == lines.map_values(
            |l: BlameView| json_line(s, l),
        ),
{
    let a = lines.map_values(|l: BlameView| blame_json(s, l));
    let b = lines.map_values(|l: BlameView| json_line(s, l));
    reveal_strlit("null,\"time\":null,\"label\":null");
    reveal_strlit("null");
    reveal_strlit(",\"time\":");
    reveal_strlit(",\"label\":");
    assert("null,\"time\":null,\"label\":null"@ =~= "null"@ + ",\"time\":"@ + "null"@
        + ",\"label\":"@ + "null"@);
    assert forall|i: int| 0 <= i < lines.len() implies a[i] == b[i] by {
        assert(blame_json(s, lines[i]) =~= json_line(s, lines[i]));
    }
    assert(a =~= b);
}

proof fn lemma_table(s: StoreView, lines: Seq<BlameView>, n: nat, tw: int, lw: int, nw: int)
    requires
        n <= lines.len(),
    ensures
        blame_rows(s, lines, n, tw, lw, nw) == table(s, lines.take(n as int), (tw, lw, nw)),
    decreases n,
{
    if n == 0 {
        assert(lines.take(0) =~= Seq::<BlameView>::empty());
    } else {
        lemma_table(s, lines, (n - 1) as nat, tw, lw, nw);
        let part = lines.take(n as int);
        assert(part.drop_last() =~= lines.take(n - 1));
        let l = lines[n - 1];
        assert(part.last() == l);
        assert(label_cell(s, l.origin) =~= writer_label(s, l.origin));
        assert(turn_cell(l.origin) =~= writer_name(l.origin));
        assert(time_cell(s, l.origin) =~= writer_time(s, l.origin));
        assert(blame_row(s, l, tw, lw, nw) =~= (writer_name(l.origin) + spaces(
            tw - writer_name(l.origin).len(),
        ) + " | "@ + writer_time(s, l.origin) + " | "@ + writer_label(s, l.origin) + spaces(
            lw - writer_label(s, l.origin).len(),
        ) + " | "@ + spaces(nw - numeral(l.line).len()) + numeral(l.line) + " | "@ + l.text
            + "\n"@));
    }
}

/// What `blame` prints is every line of the file as it stands at the turn that
/// `--at` names, or without it of the file in the working tree. The lines come
/// in order and are numbered from one. Each is charged to the turn that wrote
/// it: going from one recorded state to the next, a line that the diff keeps
/// stays with its writer, and every other line goes to the later turn. With each
/// line stand the time and label of its turn; what no turn has yet is charged to
/// the working tree.
pub proof fn law_blame_charges_each_line_to_its_writer(
    s: StoreView,
    rel: Seq<char>,
    at: Option<u64>,
    working: Option<Seq<u8>>,
)
    requires
        countable_texts(s, rel, working),
    ensures
        blame_output(s, rel, at, working, true) matches Ok(text) ==> blamed(s, rel, at, working)
            is Some && exists|lines: Seq<BlameView>| #[trigger]
            blamed_lines(s, rel, at, working, lines) && text
                == "{\"tool\":\"snapref\",\"version\":\"0.1.0\""@ + ",\"path\":"@ + json_text(rel)
                + ",\"lines\":["@ + joined_by(
                lines.map_values(|l: BlameView| json_line(s, l)),
                ',',
            ) + "]}\n"@,
        blame_output(s, rel, at, working, false) matches Ok(text) ==> blamed(s, rel, at, working)
            is Some && exists|lines: Seq<BlameView>, wide: (int, int, int)| #[trigger]
            blamed_lines(s, rel, at, working, lines) && aligned(s, lines, wide) && text
                == #[trigger] table(s, lines, wide),
{
    if blame_versions(s, rel, at, working) is Ok {
        lemma_blamed(s, rel, at, working);
        let lines = attributed(blame_versions(s, rel, at, working)->Ok_0);
        lemma_json_rows(s, lines);
        crate::reporting::lemma_envelope();
        assert(blame_json_text(s, rel, lines)
            =~= "{\"tool\":\"snapref\",\"version\":\"0.1.0\""@ + ",\"path\":"@ + json_text(rel)
            + ",\"lines\":["@ + joined_by(
            lines.map_values(|l: BlameView| json_line(s, l)),
            ',',
        ) + "]}\n"@);
        assert(blamed_lines(s, rel, at, working, lines));
        let nw = if lines.len() == 0 {
            1
        } else {
            numeral(lines.last().line).len()
        };
        let tw = turn_cell_width(lines, lines.len()) as int;
        let lw = label_cell_width(s, lines, lines.len()) as int;
        lemma_table(s, lines, lines.len(), tw, lw, nw as int);
        assert(lines.take(lines.len() as int) =~= lines);
        assert(blame_table(s, lines) == table(s, lines, (tw, lw, nw as int)));
        lemma_turn_cells(lines, lines.len());
        lemma_label_cells(s, lines, lines.len());
        lemma_number_cells(lines, nw as int);
        assert(aligned(s, lines, (tw, lw, nw as int)));
    }
}

/// Where the working tree holds a file as the latest turn has it, blaming the
/// working tree and blaming at the latest turn print the same.
pub proof fn law_blame_of_a_clean_file_is_blame_at_the_latest_turn(
    s: StoreView,
    rel: Seq<char>,
    latest: u64,
    bytes: Seq<u8>,
    executable: bool,
    json: bool,
)
    requires
        s.latest() == Some(latest),
        s.snapshot(latest) is Ok,
        snapshot_file(s.objects, s.snapshot(latest)->Ok_0.tree, rel) == Ok::<
            Option<(Seq<u8>, bool)>,
            Seq<char>,
        >(Some((bytes, executable))),
        !binary(bytes),
        blame_output(s, rel, Some(latest), None, json) is Ok,
    ensures
        blame_output(s, rel, None, Some(bytes), json) == blame_output(
            s,
            rel,
            Some(latest),
            None,
            json,
        ),
{
    let turns = s.turns();
    let n = turns.len();
    crate::store::law_turns_are_ascending(s);
    assert(turns[n - 1] == latest);
    assert forall|i: int| 0 <= i < n implies #[trigger] turns[i] <= latest by {}
    lemma_cap_does_nothing(s, rel, latest, turns, n);
    let list = versions_in(s, rel, None, turns, n)->Ok_0;
    let v = turn_origins(list);
    let text = lossy_text(bytes);
    assert(v.len() == list.len());
    assert(list.last().1 == text);
    assert(v[list.len() - 1].1 == list[list.len() - 1].1);
    assert(working_version(v, text) == v);
}

/// A cap above all turns leaves nothing out.
proof fn lemma_cap_does_nothing(
    s: StoreView,
    rel: Seq<char>,
    cap: u64,
    turns: Seq<u64>,
    n: nat,
)
    requires
        n <= turns.len(),
        forall|i: int| 0 <= i < n ==> #[trigger] turns[i] <= cap,
    ensures
        versions_in(s, rel, Some(cap), turns, n) == versions_in(s, rel, None, turns, n),
    decreases n,
{
    if n > 0 {
        lemma_cap_does_nothing(s, rel, cap, turns, (n - 1) as nat);
        assert(turns[n - 1] <= cap);
    }
}

/// A line that did not change between a turn and the next one that has the file
/// is charged to the same turn in both blames: what is printed at the later turn
/// follows from the writers at the earlier one.
pub proof fn law_kept_lines_keep_their_writer(
    old: Seq<char>,
    writers: Seq<Origin>,
    new: Seq<char>,
    origin: Origin,
    i: int,
    j: int,
)
    requires
        writers.len() == lines_of(old).len(),
        lines_of(old).len() <= usize::MAX,
        lines_of(new).len() <= usize::MAX,
        0 <= j < lines_of(new).len(),
    ensures
        writers_after(old, writers, new, origin).len() == lines_of(new).len(),
        keeps(line_script(lines_of(old), lines_of(new)), i, j) ==> 0 <= i < lines_of(old).len()
            && lines_of(old)[i] == lines_of(new)[j] && writers_after(old, writers, new, origin)[j]
            == writers[i],
        (forall|k: int| !#[trigger] keeps(line_script(lines_of(old), lines_of(new)), k, j))
            ==> writers_after(old, writers, new, origin)[j] == origin,
{
    let a = lines_of(old);
    let b = lines_of(new);
    let ops = line_script(a, b);
    law_line_script_is_shortest(a, b);
    lemma_writers_after(old, writers, new, origin);
    lemma_carried(writers, ops, origin, a, b);
    if keeps(ops, i, j) {
        lemma_keeps_equal(ops, a, b, i, j);
    }
}

proof fn lemma_keeps_equal<T>(ops: Seq<Op>, a: Seq<T>, b: Seq<T>, i: int, j: int)
    requires
        fits(ops, a, b),
        keeps(ops, i, j),
    ensures
        0 <= i < a.len(),
        0 <= j < b.len(),
        a[i] == b[j],
    decreases ops.len(),
{
    let done = ops.drop_last();
    lemma_keeps_push(ops, i, j);
    if keeps(done, i, j) {
        lemma_keeps_equal(done, a, b, i, j);
    } else {
        let x = old_total(done);
        let y = new_total(done);
        assert(a[i] == b[i - x + y]);
    }
}

} // verus!
