//! A unified diff as a reader takes it: hunks that state where they stand on
//! both sides, and lines that are kept, deleted or inserted. Applied where they
//! say they stand, the hunks turn the old text into the new one, and applied
//! backwards they turn the new text into the old one.

use vstd::prelude::*;

use crate::decimal::numeral;
use crate::diff::{
    ends_of, law_difference_is_shown, law_line_script_is_shortest, line_script, shown_script,
    unified_text,
};
use crate::hunks::{
    changed, hunk_body, hunk_end, hunks_from, law_presented_script_is_exact, lemma_hunk_end, marked,
    new_lines, old_lines, records, run_records, shown, Ends, Rec, Tag,
};
use crate::script::{fits, new_total, old_total};
use crate::text::{lines_of, no_open_line};

verus! {

/// A line of a text, and whether a newline ends it.
pub type Line = (Seq<char>, bool);

/// The lines of a text; only the last one can lack its newline.
pub open spec fn text_as_lines(text: Seq<char>) -> Seq<Line> {
    let all = lines_of(text);
    Seq::new(
        all.len(),
        |i: int| (all[i], i < all.len() - 1 || text.len() == 0 || text.last() == '\n'),
    )
}

/// A line of a hunk: its mark, its text, and whether a newline ends it.
pub struct HunkLine {
    pub mark: char,
    pub text: Seq<char>,
    pub ended: bool,
}

/// A hunk as it is read: where it says it starts on each side and how many
/// lines it says it has there, and its lines.
pub struct HunkView {
    pub old_start: nat,
    pub old_count: nat,
    pub new_start: nat,
    pub new_count: nat,
    pub lines: Seq<HunkLine>,
}

/// How a line of a hunk is printed.
pub open spec fn line_print(l: HunkLine) -> Seq<char> {
    seq![l.mark] + l.text + if l.ended {
        "\n"@
    } else {
        "\n\\ No newline at end of file\n"@
    }
}

/// How the lines of a hunk are printed.
pub open spec fn lines_print(lines: Seq<HunkLine>) -> Seq<char>
    decreases lines.len(),
{
    if lines.len() == 0 {
        Seq::empty()
    } else {
        lines_print(lines.drop_last()) + line_print(lines.last())
    }
}

/// How hunks are printed: each one's stated places, then its lines.
pub open spec fn hunks_print(hunks: Seq<HunkView>) -> Seq<char>
    decreases hunks.len(),
{
    if hunks.len() == 0 {
        Seq::empty()
    } else {
        let h = hunks[0];
        "@@ -"@ + numeral(h.old_start) + ","@ + numeral(h.old_count) + " +"@ + numeral(h.new_start)
            + ","@ + numeral(h.new_count) + " @@\n"@ + lines_print(h.lines) + hunks_print(
            hunks.drop_first(),
        )
    }
}

/// The lines that do not have the mark, which are the lines of one side.
pub open spec fn lines_without(lines: Seq<HunkLine>, mark: char) -> Seq<Line>
    decreases lines.len(),
{
    if lines.len() == 0 {
        Seq::empty()
    } else {
        let before = lines_without(lines.drop_last(), mark);
        if lines.last().mark == mark {
            before
        } else {
            before.push((lines.last().text, lines.last().ended))
        }
    }
}

/// Where a stated start points: lines count from one, and a hunk that has no
/// line on a side states the line before it.
pub open spec fn place(start: nat, count: nat) -> int {
    if count > 0 {
        start - 1
    } else {
        start as int
    }
}

/// What the old lines from `x` on become when hunks are applied where they say
/// they stand: lines between hunks stay, and each hunk's old lines give way to
/// its new ones.
pub open spec fn patched(old: Seq<Line>, hunks: Seq<HunkView>, x: int) -> Seq<Line>
    decreases hunks.len(),
{
    if hunks.len() == 0 {
        old.skip(x)
    } else {
        let h = hunks[0];
        let p = place(h.old_start, h.old_count);
        old.subrange(x, p) + lines_without(h.lines, '-') + patched(
            old,
            hunks.drop_first(),
            p + h.old_count,
        )
    }
}

/// Every hunk stands where it says: with line `x` of the old side and line `y`
/// of the new side reached, the lines up to the next hunk are the same on both
/// sides; its lines marked ' ' or '-' are exactly the lines of the old side that
/// its header states, and those marked ' ' or '+' exactly those of the new side.
pub open spec fn stand_where_stated(
    hunks: Seq<HunkView>,
    old: Seq<Line>,
    new: Seq<Line>,
    x: int,
    y: int,
) -> bool
    decreases hunks.len(),
{
    if hunks.len() == 0 {
        old.skip(x) == new.skip(y)
    } else {
        let h = hunks[0];
        let p = place(h.old_start, h.old_count);
        let q = place(h.new_start, h.new_count);
        &&& x <= p <= p + h.old_count <= old.len()
        &&& y <= q <= q + h.new_count <= new.len()
        &&& old.subrange(x, p) == new.subrange(y, q)
        &&& lines_without(h.lines, '+') == old.subrange(p, p + h.old_count)
        &&& lines_without(h.lines, '-') == new.subrange(q, q + h.new_count)
        &&& forall|i: int|
            0 <= i < h.lines.len() ==> (#[trigger] h.lines[i]).mark == ' ' || h.lines[i].mark == '-'
                || h.lines[i].mark == '+'
        &&& stand_where_stated(
            hunks.drop_first(),
            old,
            new,
            p + h.old_count,
            q + h.new_count,
        )
    }
}

/// The hunk has a changed line within `ctx` lines of each of its lines. Where
/// lines before it are left out it starts with `ctx` kept lines, and where lines
/// behind it are left out it ends with as many.
pub open spec fn framed(h: HunkView, ctx: nat, cut_before: bool, cut_behind: bool) -> bool {
    let n = h.lines.len() as int;
    &&& n > 0
    &&& forall|i: int| 0 <= i < n ==> #[trigger] near_change(h.lines, i, ctx)
    &&& cut_before ==> forall|i: int|
        0 <= i < ctx ==> i < n && (#[trigger] h.lines[i]).mark == ' '
    &&& cut_behind ==> forall|i: int|
        n - ctx <= i < n ==> 0 <= i && (#[trigger] h.lines[i]).mark == ' '
}

/// A changed line is at most `ctx` lines away from line `i`.
pub open spec fn near_change(lines: Seq<HunkLine>, i: int, ctx: nat) -> bool {
    exists|j: int|
        0 <= j < lines.len() && (#[trigger] lines[j]).mark != ' ' && i - ctx <= j <= i + ctx
}

/// Every hunk is framed; between two of them lines are left out.
pub open spec fn all_framed(hunks: Seq<HunkView>, ctx: nat, old: Seq<Line>, x: int) -> bool
    decreases hunks.len(),
{
    hunks.len() > 0 ==> {
        let h = hunks[0];
        let p = place(h.old_start, h.old_count);
        let rest = hunks.drop_first();
        &&& framed(h, ctx, p > x, p + h.old_count < old.len())
        &&& rest.len() > 0 ==> place(rest[0].old_start, rest[0].old_count) > p + h.old_count
        &&& all_framed(rest, ctx, old, p + h.old_count)
    }
}

/// Each record stands behind the lines of those before it, and a kept line is
/// the same on both sides.
#[verifier::opaque]
spec fn in_step(recs: Seq<Rec>, a: Seq<Line>, b: Seq<Line>) -> bool {
    &&& old_lines(recs) <= a.len()
    &&& new_lines(recs) <= b.len()
    &&& forall|i: int|
        0 <= i < recs.len() ==> (#[trigger] recs[i]).ai == old_lines(recs.take(i)) && recs[i].bi
            == new_lines(recs.take(i))
    &&& forall|i: int|
        0 <= i < recs.len() && (#[trigger] recs[i]).tag == Tag::Ctx ==> recs[i].ai < a.len()
            && recs[i].bi < b.len() && a[recs[i].ai as int] == b[recs[i].bi as int]
}

proof fn lemma_step(recs: Seq<Rec>, a: Seq<Line>, b: Seq<Line>, i: int)
    requires
        in_step(recs, a, b),
        0 <= i < recs.len(),
    ensures
        recs[i].ai == old_lines(recs.take(i)),
        recs[i].bi == new_lines(recs.take(i)),
        recs[i].tag == Tag::Ctx ==> recs[i].ai < a.len() && recs[i].bi < b.len()
            && a[recs[i].ai as int] == b[recs[i].bi as int],
{
    reveal(in_step);
}

proof fn lemma_step_totals(recs: Seq<Rec>, a: Seq<Line>, b: Seq<Line>)
    requires
        in_step(recs, a, b),
    ensures
        old_lines(recs) <= a.len(),
        new_lines(recs) <= b.len(),
{
    reveal(in_step);
}

proof fn lemma_lines_split(recs: Seq<Rec>, i: int, j: int)
    requires
        0 <= i <= j <= recs.len(),
    ensures
        old_lines(recs.take(j)) == old_lines(recs.take(i)) + old_lines(recs.subrange(i, j)),
        new_lines(recs.take(j)) == new_lines(recs.take(i)) + new_lines(recs.subrange(i, j)),
    decreases j - i,
{
    if i == j {
        assert(recs.subrange(i, j) =~= Seq::<Rec>::empty());
    } else {
        lemma_lines_split(recs, i, j - 1);
        assert(recs.take(j).drop_last() =~= recs.take(j - 1));
        assert(recs.subrange(i, j).drop_last() =~= recs.subrange(i, j - 1));
    }
}

proof fn lemma_push_in_step(recs: Seq<Rec>, r: Rec, a: Seq<Line>, b: Seq<Line>)
    requires
        in_step(recs, a, b),
        r.ai == old_lines(recs),
        r.bi == new_lines(recs),
        r.tag != Tag::Ins ==> r.ai < a.len(),
        r.tag != Tag::Del ==> r.bi < b.len(),
        r.tag == Tag::Ctx ==> a[r.ai as int] == b[r.bi as int],
    ensures
        in_step(recs.push(r), a, b),
{
    reveal(in_step);
    let out = recs.push(r);
    assert(out.drop_last() =~= recs);
    assert forall|i: int| 0 <= i < out.len() implies (#[trigger] out[i]).ai == old_lines(
        out.take(i),
    ) && out[i].bi == new_lines(out.take(i)) by {
        if i < recs.len() {
            assert(out.take(i) =~= recs.take(i));
            assert(out[i] == recs[i]);
        } else {
            assert(out.take(i) =~= recs);
        }
    }
    assert forall|i: int| 0 <= i < out.len() && (#[trigger] out[i]).tag == Tag::Ctx implies out[i].ai
        < a.len() && out[i].bi < b.len() && a[out[i].ai as int] == b[out[i].bi as int] by {
        if i < recs.len() {
            assert(out[i] == recs[i]);
        }
    }
}

proof fn lemma_records_in_step(ops: Seq<crate::diff::Op>, a: Seq<Line>, b: Seq<Line>)
    requires
        fits(ops, a, b),
        a.len() <= usize::MAX,
        b.len() <= usize::MAX,
    ensures
        in_step(records(ops), a, b),
        old_lines(records(ops)) == old_total(ops),
        new_lines(records(ops)) == new_total(ops),
    decreases ops.len(),
{
    if ops.len() == 0 {
        reveal(in_step);
    }
    if ops.len() > 0 {
        let done = ops.drop_last();
        lemma_records_in_step(done, a, b);
        let x = old_total(done);
        let y = new_total(done);
        let run = run_records(ops.last(), x as int, y as int);
        assert(run.take(run.len() as int) =~= run);
        lemma_run_in_step(records(done), ops.last(), run.len(), a, b, x, y);
    }
}

proof fn lemma_run_in_step(
    recs: Seq<Rec>,
    op: crate::diff::Op,
    k: nat,
    a: Seq<Line>,
    b: Seq<Line>,
    x: nat,
    y: nat,
)
    requires
        in_step(recs, a, b),
        x == old_lines(recs),
        y == new_lines(recs),
        crate::script::run_fits(op, a, b, x, y),
        a.len() <= usize::MAX,
        b.len() <= usize::MAX,
        k <= run_records(op, x as int, y as int).len(),
    ensures
        ({
            let out = recs + run_records(op, x as int, y as int).take(k as int);
            &&& in_step(out, a, b)
            &&& old_lines(out) == x + if op is Ins { 0 } else { k }
            &&& new_lines(out) == y + if op is Del { 0 } else { k }
        }),
    decreases k,
{
    let run = run_records(op, x as int, y as int);
    let out = recs + run.take(k as int);
    if k == 0 {
        assert(out =~= recs);
    } else {
        lemma_run_in_step(recs, op, (k - 1) as nat, a, b, x, y);
        let before = recs + run.take(k - 1);
        let r = run[k - 1];
        assert(out =~= before.push(r));
        assert(out.drop_last() =~= before);
        if let crate::diff::Op::Equal(n) = op {
            assert(a[x + (k - 1)] == b[x + (k - 1) - x + y]);
        }
        lemma_push_in_step(before, r, a, b);
    }
}

/// A record as a line of a hunk.
spec fn hunk_line(r: Rec, a: Seq<Line>, b: Seq<Line>) -> HunkLine {
    match r.tag {
        Tag::Ctx => HunkLine { mark: ' ', text: a[r.ai as int].0, ended: a[r.ai as int].1 },
        Tag::Del => HunkLine { mark: '-', text: a[r.ai as int].0, ended: a[r.ai as int].1 },
        Tag::Ins => HunkLine { mark: '+', text: b[r.bi as int].0, ended: b[r.bi as int].1 },
    }
}

spec fn hunk_lines(recs: Seq<Rec>, a: Seq<Line>, b: Seq<Line>) -> Seq<HunkLine> {
    recs.map_values(|r: Rec| hunk_line(r, a, b))
}

/// Records in a row are the lines of both sides from where the first stands.
proof fn lemma_hunk_lines(recs: Seq<Rec>, a: Seq<Line>, b: Seq<Line>, i: int, j: int)
    requires
        in_step(recs, a, b),
        0 <= i <= j <= recs.len(),
    ensures
        ({
            let part = recs.subrange(i, j);
            let x = old_lines(recs.take(i)) as int;
            let y = new_lines(recs.take(i)) as int;
            let lines = hunk_lines(part, a, b);
            &&& x + old_lines(part) <= a.len()
            &&& y + new_lines(part) <= b.len()
            &&& lines_without(lines, '+') == a.subrange(x, x + old_lines(part))
            &&& lines_without(lines, '-') == b.subrange(y, y + new_lines(part))
        }),
    decreases j - i,
{
    let part = recs.subrange(i, j);
    let x = old_lines(recs.take(i)) as int;
    let y = new_lines(recs.take(i)) as int;
    let lines = hunk_lines(part, a, b);
    lemma_lines_split(recs, i, j);
    lemma_lines_split(recs, j, recs.len() as int);
    assert(recs.take(recs.len() as int) =~= recs);
    lemma_step_totals(recs, a, b);
    if i == j {
        assert(lines =~= Seq::<HunkLine>::empty());
        assert(a.subrange(x, x) =~= Seq::<Line>::empty());
        assert(b.subrange(y, y) =~= Seq::<Line>::empty());
    } else {
        lemma_hunk_lines(recs, a, b, i, j - 1);
        let head = recs.subrange(i, j - 1);
        assert(part.drop_last() =~= head);
        assert(lines.drop_last() =~= hunk_lines(head, a, b));
        let r = recs[j - 1];
        assert(part.last() == r);
        lemma_lines_split(recs, i, j - 1);
        let p = x + old_lines(head);
        let q = y + new_lines(head);
        lemma_step(recs, a, b, j - 1);
        assert(r.ai == p && r.bi == q);
        assert(a.subrange(x, x + old_lines(part)) =~= if r.tag == Tag::Ins {
            a.subrange(x, p)
        } else {
            a.subrange(x, p).push(a[p])
        });
        assert(b.subrange(y, y + new_lines(part)) =~= if r.tag == Tag::Del {
            b.subrange(y, q)
        } else {
            b.subrange(y, q).push(b[q])
        });
    }
}

/// Kept records in a row are the same lines on both sides.
proof fn lemma_kept_gap(recs: Seq<Rec>, a: Seq<Line>, b: Seq<Line>, i: int, j: int)
    requires
        in_step(recs, a, b),
        0 <= i <= j <= recs.len(),
        forall|k: int| i <= k < j ==> (#[trigger] recs[k]).tag == Tag::Ctx,
    ensures
        old_lines(recs.subrange(i, j)) == j - i,
        new_lines(recs.subrange(i, j)) == j - i,
        old_lines(recs.take(j)) == old_lines(recs.take(i)) + (j - i),
        new_lines(recs.take(j)) == new_lines(recs.take(i)) + (j - i),
        old_lines(recs.take(j)) <= a.len(),
        new_lines(recs.take(j)) <= b.len(),
        a.subrange(old_lines(recs.take(i)) as int, old_lines(recs.take(j)) as int) == b.subrange(
            new_lines(recs.take(i)) as int,
            new_lines(recs.take(j)) as int,
        ),
    decreases j - i,
{
    lemma_lines_split(recs, i, j);
    lemma_hunk_lines(recs, a, b, i, j);
    let x = old_lines(recs.take(i)) as int;
    let y = new_lines(recs.take(i)) as int;
    if i == j {
        assert(recs.subrange(i, j) =~= Seq::<Rec>::empty());
        assert(a.subrange(x, x) =~= b.subrange(y, y));
    } else {
        lemma_kept_gap(recs, a, b, i, j - 1);
        assert(recs.subrange(i, j).drop_last() =~= recs.subrange(i, j - 1));
        let r = recs[j - 1];
        lemma_step(recs, a, b, j - 1);
        assert(r.ai == x + (j - 1 - i) && r.bi == y + (j - 1 - i));
        assert(a.subrange(x, x + (j - i)) =~= a.subrange(x, x + (j - 1 - i)).push(a[r.ai as int]));
        assert(b.subrange(y, y + (j - i)) =~= b.subrange(y, y + (j - 1 - i)).push(b[r.bi as int]));
    }
}

/// The hunk of the records `i..j`.
spec fn hunk_of(recs: Seq<Rec>, i: int, j: int, a: Seq<Line>, b: Seq<Line>) -> HunkView {
    let part = recs.subrange(i, j);
    let x = old_lines(recs.take(i));
    let y = new_lines(recs.take(i));
    HunkView {
        old_start: if old_lines(part) > 0 {
            x + 1
        } else {
            x
        },
        old_count: old_lines(part),
        new_start: if new_lines(part) > 0 {
            y + 1
        } else {
            y
        },
        new_count: new_lines(part),
        lines: hunk_lines(part, a, b),
    }
}

/// The hunks of the records from `i` on.
spec fn hunk_list(recs: Seq<Rec>, ctx: usize, i: int, a: Seq<Line>, b: Seq<Line>) -> Seq<HunkView>
    decreases recs.len() - i,
{
    if i < 0 || i >= recs.len() {
        Seq::empty()
    } else if !shown(recs, ctx, i) {
        hunk_list(recs, ctx, i + 1, a, b)
    } else {
        proof {
            lemma_hunk_end(recs, ctx, i);
        }
        let j = hunk_end(recs, ctx, i);
        seq![hunk_of(recs, i, j, a, b)] + hunk_list(recs, ctx, j, a, b)
    }
}

proof fn lemma_hidden_is_kept(recs: Seq<Rec>, ctx: usize, i: int)
    requires
        0 <= i < recs.len(),
        !shown(recs, ctx, i),
    ensures
        recs[i].tag == Tag::Ctx,
{
    if recs[i].tag != Tag::Ctx {
        assert(changed(recs[i]));
    }
}

proof fn lemma_body_print(part: Seq<Rec>, sa: Seq<Seq<char>>, sb: Seq<Seq<char>>, ends: Ends)
    requires
        ends.a_len == sa.len(),
        ends.b_len == sb.len(),
        forall|k: int|
            0 <= k < part.len() && part[k].tag != Tag::Ins ==> (#[trigger] part[k]).ai < sa.len(),
        forall|k: int|
            0 <= k < part.len() && part[k].tag != Tag::Del ==> (#[trigger] part[k]).bi < sb.len(),
    ensures
        hunk_body(part, sa, sb, ends) == lines_print(
            hunk_lines(part, marked(sa, ends.a_nl), marked(sb, ends.b_nl)),
        ),
    decreases part.len(),
{
    let a = marked(sa, ends.a_nl);
    let b = marked(sb, ends.b_nl);
    let lines = hunk_lines(part, a, b);
    reveal_strlit("");
    if part.len() == 0 {
        assert(hunk_body(part, sa, sb, ends) =~= lines_print(lines));
    } else {
        let head = part.drop_last();
        assert forall|k: int| 0 <= k < head.len() && head[k].tag != Tag::Ins implies (
        #[trigger] head[k]).ai < sa.len() by {
            assert(part[k] == head[k]);
        }
        assert forall|k: int| 0 <= k < head.len() && head[k].tag != Tag::Del implies (
        #[trigger] head[k]).bi < sb.len() by {
            assert(part[k] == head[k]);
        }
        lemma_body_print(head, sa, sb, ends);
        assert(lines.drop_last() =~= hunk_lines(head, a, b));
        let r = part[part.len() - 1];
        reveal_strlit(" ");
        reveal_strlit("-");
        reveal_strlit("+");
        reveal_strlit("\n");
        reveal_strlit("\\ No newline at end of file\n");
        reveal_strlit("\n\\ No newline at end of file\n");
        assert("\n\\ No newline at end of file\n"@ =~= "\n"@ + "\\ No newline at end of file\n"@);
        assert(crate::hunks::record_text(r, sa, sb, ends) =~= line_print(hunk_line(r, a, b)));
    }
}

proof fn lemma_in_bounds(recs: Seq<Rec>, a: Seq<Line>, b: Seq<Line>)
    requires
        in_step(recs, a, b),
    ensures
        forall|k: int|
            0 <= k < recs.len() && recs[k].tag != Tag::Ins ==> (#[trigger] recs[k]).ai < a.len(),
        forall|k: int|
            0 <= k < recs.len() && recs[k].tag != Tag::Del ==> (#[trigger] recs[k]).bi < b.len(),
{
    assert forall|k: int| 0 <= k < recs.len() implies ((#[trigger] recs[k]).tag != Tag::Ins
        ==> recs[k].ai < a.len()) && (recs[k].tag != Tag::Del ==> recs[k].bi < b.len()) by {
        lemma_step(recs, a, b, k);
        lemma_step_totals(recs, a, b);
        lemma_lines_split(recs, k + 1, recs.len() as int);
        lemma_lines_split(recs, k, k + 1);
        assert(recs.take(recs.len() as int) =~= recs);
        assert(recs.subrange(k, k + 1).drop_last() =~= Seq::<Rec>::empty());
        assert(recs.subrange(k, k + 1).last() == recs[k]);
    }
}

/// The printed hunks are those of the list.
proof fn lemma_printed(
    recs: Seq<Rec>,
    ctx: usize,
    i: int,
    sa: Seq<Seq<char>>,
    sb: Seq<Seq<char>>,
    ends: Ends,
)
    requires
        0 <= i <= recs.len(),
        in_step(recs, marked(sa, ends.a_nl), marked(sb, ends.b_nl)),
        ends.a_len == sa.len(),
        ends.b_len == sb.len(),
    ensures
        hunks_from(recs, ctx, i, sa, sb, ends) == hunks_print(
            hunk_list(recs, ctx, i, marked(sa, ends.a_nl), marked(sb, ends.b_nl)),
        ),
    decreases recs.len() - i,
{
    let a = marked(sa, ends.a_nl);
    let b = marked(sb, ends.b_nl);
    reveal_strlit("");
    if i == recs.len() {
        assert(hunks_from(recs, ctx, i, sa, sb, ends) =~= Seq::<char>::empty());
    } else if !shown(recs, ctx, i) {
        lemma_printed(recs, ctx, i + 1, sa, sb, ends);
    } else {
        lemma_hunk_end(recs, ctx, i);
        let j = hunk_end(recs, ctx, i);
        let part = recs.subrange(i, j);
        lemma_printed(recs, ctx, j, sa, sb, ends);
        lemma_in_bounds(recs, a, b);
        assert forall|k: int| 0 <= k < part.len() && part[k].tag != Tag::Ins implies (
        #[trigger] part[k]).ai < sa.len() by {
            assert(recs[i + k] == part[k]);
        }
        assert forall|k: int| 0 <= k < part.len() && part[k].tag != Tag::Del implies (
        #[trigger] part[k]).bi < sb.len() by {
            assert(recs[i + k] == part[k]);
        }
        lemma_body_print(part, sa, sb, ends);
        let h = hunk_of(recs, i, j, a, b);
        let rest = hunk_list(recs, ctx, j, a, b);
        let all = seq![h] + rest;
        assert(all[0] == h);
        assert(all.drop_first() =~= rest);
        assert(part[0] == recs[i]);
        lemma_step(recs, a, b, i);
        assert(hunks_print(all) =~= crate::hunks::hunk_header(part) + hunk_body(part, sa, sb, ends)
            + hunks_print(rest));
    }
}

/// With the records before `i0` read and those from `i0` to `i` left out, the
/// hunks from `i` on stand where they say.
proof fn lemma_stand(
    recs: Seq<Rec>,
    ctx: usize,
    i0: int,
    i: int,
    a: Seq<Line>,
    b: Seq<Line>,
)
    requires
        0 <= i0 <= i <= recs.len(),
        in_step(recs, a, b),
        old_lines(recs) == a.len(),
        new_lines(recs) == b.len(),
        forall|k: int| i0 <= k < i ==> !#[trigger] shown(recs, ctx, k),
    ensures
        stand_where_stated(
            hunk_list(recs, ctx, i, a, b),
            a,
            b,
            old_lines(recs.take(i0)) as int,
            new_lines(recs.take(i0)) as int,
        ),
    decreases recs.len() - i,
{
    let x = old_lines(recs.take(i0)) as int;
    let y = new_lines(recs.take(i0)) as int;
    assert(recs.take(recs.len() as int) =~= recs);
    if i < recs.len() && !shown(recs, ctx, i) {
        lemma_stand(recs, ctx, i0, i + 1, a, b);
    } else {
        assert forall|k: int| i0 <= k < i implies (#[trigger] recs[k]).tag == Tag::Ctx by {
            assert(!shown(recs, ctx, k));
            lemma_hidden_is_kept(recs, ctx, k);
        }
        lemma_kept_gap(recs, a, b, i0, i);
        if i == recs.len() {
            assert(a.skip(x) =~= a.subrange(x, a.len() as int));
            assert(b.skip(y) =~= b.subrange(y, b.len() as int));
        } else {
            lemma_hunk_end(recs, ctx, i);
            let j = hunk_end(recs, ctx, i);
            lemma_stand(recs, ctx, j, j, a, b);
            lemma_hunk_lines(recs, a, b, i, j);
            lemma_lines_split(recs, i, j);
            let h = hunk_of(recs, i, j, a, b);
            let rest = hunk_list(recs, ctx, j, a, b);
            let all = seq![h] + rest;
            assert(all[0] == h);
            assert(all.drop_first() =~= rest);
        }
    }
}

proof fn lemma_hunk_run(recs: Seq<Rec>, ctx: usize, i: int)
    requires
        0 <= i <= recs.len(),
    ensures
        forall|k: int| i <= k < hunk_end(recs, ctx, i) ==> #[trigger] shown(recs, ctx, k),
        hunk_end(recs, ctx, i) < recs.len() ==> !shown(recs, ctx, hunk_end(recs, ctx, i)),
    decreases recs.len() - i,
{
    lemma_hunk_end(recs, ctx, i);
    if i < recs.len() && shown(recs, ctx, i) {
        lemma_hunk_run(recs, ctx, i + 1);
        lemma_hunk_end(recs, ctx, i + 1);
    }
}

proof fn lemma_frames(
    recs: Seq<Rec>,
    ctx: usize,
    i0: int,
    i: int,
    a: Seq<Line>,
    b: Seq<Line>,
)
    requires
        0 <= i0 <= i <= recs.len(),
        in_step(recs, a, b),
        old_lines(recs) == a.len(),
        new_lines(recs) == b.len(),
        i0 > 0 ==> i0 == recs.len() || !shown(recs, ctx, i0),
        forall|k: int| i0 <= k < i ==> !#[trigger] shown(recs, ctx, k),
    ensures
        ({
            let list = hunk_list(recs, ctx, i, a, b);
            let x = old_lines(recs.take(i0)) as int;
            &&& all_framed(list, ctx as nat, a, x)
            &&& i0 > 0 && list.len() > 0 ==> place(list[0].old_start, list[0].old_count) > x
        }),
    decreases recs.len() - i,
{
    let x = old_lines(recs.take(i0)) as int;
    assert(recs.take(recs.len() as int) =~= recs);
    if i == recs.len() {
        assert(hunk_list(recs, ctx, i, a, b).len() == 0);
    } else if i < recs.len() && !shown(recs, ctx, i) {
        lemma_frames(recs, ctx, i0, i + 1, a, b);
    } else if i < recs.len() {
        assert forall|k: int| i0 <= k < i implies (#[trigger] recs[k]).tag == Tag::Ctx by {
            assert(!shown(recs, ctx, k));
            lemma_hidden_is_kept(recs, ctx, k);
        }
        lemma_kept_gap(recs, a, b, i0, i);
        lemma_hunk_end(recs, ctx, i);
        lemma_hunk_run(recs, ctx, i);
        let j = hunk_end(recs, ctx, i);
        lemma_frames(recs, ctx, j, j, a, b);
        lemma_lines_split(recs, i, j);
        lemma_lines_split(recs, j, recs.len() as int);
        let h = hunk_of(recs, i, j, a, b);
        let rest = hunk_list(recs, ctx, j, a, b);
        let all = seq![h] + rest;
        assert(all[0] == h);
        assert(all.drop_first() =~= rest);
        assert(i > 0 ==> !shown(recs, ctx, i - 1)) by {
            if i > i0 {
                assert(!shown(recs, ctx, i - 1));
            }
        }
        lemma_framed_hunk(recs, ctx, i, j, a, b);
        let p = place(h.old_start, h.old_count);
        assert(p == x + (i - i0));
        assert(p + h.old_count == old_lines(recs.take(j)));
        assert(p + h.old_count < a.len() ==> j < recs.len()) by {
            if j == recs.len() {
                assert(recs.take(j) =~= recs);
            }
        }
        assert(framed(h, ctx as nat, p > x, p + h.old_count < a.len()));
        assert(hunk_list(recs, ctx, i, a, b) == all);
    }
}

proof fn lemma_framed_hunk(
    recs: Seq<Rec>,
    ctx: usize,
    i: int,
    j: int,
    a: Seq<Line>,
    b: Seq<Line>,
)
    requires
        0 <= i < j <= recs.len(),
        shown(recs, ctx, i),
        j == hunk_end(recs, ctx, i),
        i > 0 ==> !shown(recs, ctx, i - 1),
    ensures
        framed(hunk_of(recs, i, j, a, b), ctx as nat, i > 0, j < recs.len()),
{
    let h = hunk_of(recs, i, j, a, b);
    let n = j - i;
    lemma_hunk_run(recs, ctx, i);
    assert(h.lines.len() == n);
    assert forall|k: int| 0 <= k < n implies #[trigger] h.lines[k] == hunk_line(
        recs[i + k],
        a,
        b,
    ) by {}
    assert forall|k: int| 0 <= k < n implies #[trigger] near_change(h.lines, k, ctx as nat) by {
        assert(shown(recs, ctx, i + k));
        let t = choose|t: int|
            0 <= t < recs.len() && changed(#[trigger] recs[t]) && i + k - ctx <= t <= i + k + ctx;
        if t < i {
            assert(changed(recs[t]));
            assert(shown(recs, ctx, i - 1));
        }
        if t >= j {
            assert(changed(recs[t]));
            assert(shown(recs, ctx, j));
        }
        assert(h.lines[t - i].mark != ' ');
    }
    if i > 0 {
        assert forall|k: int| 0 <= k < ctx implies k < n && (#[trigger] h.lines[k]).mark == ' ' by {
            lemma_cut_before(recs, ctx, i, j, k);
        }
    }
    if j < recs.len() {
        assert forall|k: int| n - ctx <= k < n implies 0 <= k && (#[trigger] h.lines[k]).mark
            == ' ' by {
            lemma_cut_behind(recs, ctx, i, j, k);
        }
    }
}

/// Behind a line that is left out, the first `ctx` lines of a hunk are kept.
proof fn lemma_cut_before(recs: Seq<Rec>, ctx: usize, i: int, j: int, k: int)
    requires
        0 < i < j <= recs.len(),
        !shown(recs, ctx, i - 1),
        shown(recs, ctx, i),
        j == hunk_end(recs, ctx, i),
        0 <= k < ctx,
    ensures
        k < j - i,
        recs[i + k].tag == Tag::Ctx,
{
    let t = choose|t: int|
        0 <= t < recs.len() && changed(#[trigger] recs[t]) && i - ctx <= t <= i + ctx;
    if t < i + ctx {
        assert(changed(recs[t]));
        assert(shown(recs, ctx, i - 1));
    }
    assert(t == i + ctx);
    lemma_hunk_run(recs, ctx, i);
    if j <= i + k {
        assert(changed(recs[t]));
        assert(shown(recs, ctx, j));
    }
    if recs[i + k].tag != Tag::Ctx {
        assert(changed(recs[i + k]));
        assert(shown(recs, ctx, i - 1));
    }
}

/// Before a line that is left out, the last `ctx` lines of a hunk are kept.
proof fn lemma_cut_behind(recs: Seq<Rec>, ctx: usize, i: int, j: int, k: int)
    requires
        0 <= i < j < recs.len(),
        shown(recs, ctx, i),
        j == hunk_end(recs, ctx, i),
        i == 0 || !shown(recs, ctx, i - 1),
        j - i - ctx <= k < j - i,
    ensures
        0 <= k,
        recs[i + k].tag == Tag::Ctx,
{
    lemma_hunk_run(recs, ctx, i);
    assert(shown(recs, ctx, j - 1));
    let t = choose|t: int|
        0 <= t < recs.len() && changed(#[trigger] recs[t]) && j - 1 - ctx <= t <= j - 1 + ctx;
    if t > j - 1 - ctx {
        assert(changed(recs[t]));
        assert(shown(recs, ctx, j));
    }
    assert(t == j - 1 - ctx);
    if i > 0 && t < i {
        assert(changed(recs[t]));
        assert(shown(recs, ctx, i - 1));
    }
    if recs[i + k].tag != Tag::Ctx {
        assert(changed(recs[i + k]));
        assert(shown(recs, ctx, j));
    }
}

proof fn lemma_marked_lines(text: Seq<char>)
    ensures
        marked(lines_of(text), no_open_line(text)) == text_as_lines(text),
{
    assert(marked(lines_of(text), no_open_line(text)) =~= text_as_lines(text));
}

/// Hunks that stand where they say turn the old lines into the new ones.
proof fn lemma_patched(
    hunks: Seq<HunkView>,
    old: Seq<Line>,
    new: Seq<Line>,
    x: int,
    y: int,
)
    requires
        0 <= x <= old.len(),
        0 <= y <= new.len(),
        stand_where_stated(hunks, old, new, x, y),
    ensures
        patched(old, hunks, x) == new.skip(y),
    decreases hunks.len(),
{
    if hunks.len() > 0 {
        let h = hunks[0];
        let p = place(h.old_start, h.old_count);
        let q = place(h.new_start, h.new_count);
        lemma_patched(hunks.drop_first(), old, new, p + h.old_count, q + h.new_count);
        assert(new.skip(y) =~= new.subrange(y, q) + new.subrange(q, q + h.new_count) + new.skip(
            q + h.new_count,
        ));
    }
}

/// The unified diff of two texts is two lines that name the sides, and hunks.
/// Every hunk header is true: the lines of the hunk marked ' ' or '-' are
/// exactly the lines of the old text that the header states, and those marked
/// ' ' or '+' exactly the lines of the new text that it states. Lines that no
/// hunk shows are the same on both sides. So applying the printed hunks at their
/// stated places to the old text gives the new text. Each hunk shows `ctx` kept
/// lines around its changes where there are as many.
pub proof fn law_printed_hunks_patch_the_text(
    a_label: Seq<char>,
    b_label: Seq<char>,
    a_text: Seq<char>,
    b_text: Seq<char>,
    ctx: usize,
)
    requires
        a_text != b_text,
        lines_of(a_text).len() <= usize::MAX,
        lines_of(b_text).len() <= usize::MAX,
    ensures
        exists|hunks: Seq<HunkView>|
            #![trigger hunks_print(hunks)]
            {
                let old = text_as_lines(a_text);
                let new = text_as_lines(b_text);
                &&& unified_text(a_label, b_label, a_text, b_text, ctx) == "--- "@ + a_label
                    + "\n+++ "@ + b_label + "\n"@ + hunks_print(hunks)
                &&& hunks.len() > 0
                &&& stand_where_stated(hunks, old, new, 0, 0)
                &&& patched(old, hunks, 0) == new
                &&& all_framed(hunks, ctx as nat, old, 0)
            },
{
    let sa = lines_of(a_text);
    let sb = lines_of(b_text);
    let ends = ends_of(a_text, b_text);
    let a = marked(sa, ends.a_nl);
    let b = marked(sb, ends.b_nl);
    let ops = shown_script(a_text, b_text);
    let recs = records(ops);
    law_line_script_is_shortest(sa, sb);
    law_presented_script_is_exact(line_script(sa, sb), sa, sb, ends);
    lemma_marked_lines(a_text);
    lemma_marked_lines(b_text);
    lemma_records_in_step(ops, a, b);
    let hunks = hunk_list(recs, ctx, 0, a, b);
    assert(recs.take(0) =~= Seq::<Rec>::empty());
    lemma_printed(recs, ctx, 0, sa, sb, ends);
    lemma_stand(recs, ctx, 0, 0, a, b);
    lemma_frames(recs, ctx, 0, 0, a, b);
    lemma_patched(hunks, a, b, 0, 0);
    assert(b.skip(0) =~= b);
    law_difference_is_shown(a_text, b_text);
    let j = choose|j: int| 0 <= j < recs.len() && changed(#[trigger] recs[j]);
    assert(shown(recs, ctx, j)) by {
        assert(changed(recs[j]));
    }
    lemma_some_hunk(recs, ctx, 0, j, a, b);
    assert(unified_text(a_label, b_label, a_text, b_text, ctx) == "--- "@ + a_label + "\n+++ "@
        + b_label + "\n"@ + hunks_print(hunks));
}

proof fn lemma_some_hunk(
    recs: Seq<Rec>,
    ctx: usize,
    i: int,
    j: int,
    a: Seq<Line>,
    b: Seq<Line>,
)
    requires
        0 <= i <= j < recs.len(),
        shown(recs, ctx, j),
    ensures
        hunk_list(recs, ctx, i, a, b).len() > 0,
    decreases recs.len() - i,
{
    if !shown(recs, ctx, i) {
        lemma_some_hunk(recs, ctx, i + 1, j, a, b);
    }
}

} // verus!
