//! From an edit script to the hunks of a unified diff: surfacing changes of
//! the last newline, ordering each changed region, expanding runs to one
//! record per line, and choosing the lines that are shown.

use vstd::prelude::*;

use crate::decimal::{decimal, numeral};
use crate::diff::{equal_run, Op};
use crate::myers::{lemma_merged, lemma_push_run, lemma_totals_concat, merge, merged};
use crate::script::{
    cost, fits, new_span, new_total, old_span, old_total, path, run_cost, run_len, transforms,
};
use crate::text::texts;

verus! {

/// Line `i` of `n` ends with a newline, where `nl` says it of the last one.
pub open spec fn terminated(i: int, n: int, nl: bool) -> bool {
    nl || i != n - 1
}

/// The lines, each with whether a newline ends it.
pub open spec fn marked(lines: Seq<Seq<char>>, nl: bool) -> Seq<(Seq<char>, bool)> {
    Seq::new(lines.len(), |i: int| (lines[i], terminated(i, lines.len() as int, nl)))
}

/// The lengths of both sides, and whether each is free of an unterminated last
/// line.
pub struct Ends {
    pub a_len: usize,
    pub b_len: usize,
    pub a_nl: bool,
    pub b_nl: bool,
}

/// A run that ends before line `x` and line `y`. Where the last pair of an
/// `Equal` run differs in its newline, that pair becomes a change.
pub open spec fn surfaced_run(op: Op, x: int, y: int, ends: Ends) -> Seq<Op> {
    match op {
        Op::Equal(n) => if n > 0 && terminated(x - 1, ends.a_len as int, ends.a_nl) != terminated(
            y - 1,
            ends.b_len as int,
            ends.b_nl,
        ) {
            equal_run(n - 1) + seq![Op::Del(1), Op::Ins(1)]
        } else {
            seq![op]
        },
        _ => seq![op],
    }
}

/// The script with changes of the last newline surfaced.
pub open spec fn surfaced(ops: Seq<Op>, ends: Ends) -> Seq<Op>
    decreases ops.len(),
{
    if ops.len() == 0 {
        Seq::empty()
    } else {
        surfaced(ops.drop_last(), ends) + surfaced_run(
            ops.last(),
            old_total(ops) as int,
            new_total(ops) as int,
            ends,
        )
    }
}

pub open spec fn del_run(n: int) -> Seq<Op> {
    if n > 0 {
        seq![Op::Del(n as usize)]
    } else {
        Seq::empty()
    }
}

pub open spec fn ins_run(n: int) -> Seq<Op> {
    if n > 0 {
        seq![Op::Ins(n as usize)]
    } else {
        Seq::empty()
    }
}

/// The runs before the changed region that the script ends in, and the lines
/// deleted and inserted in that region.
pub open spec fn regions(ops: Seq<Op>) -> (Seq<Op>, nat, nat)
    decreases ops.len(),
{
    if ops.len() == 0 {
        (Seq::empty(), 0, 0)
    } else {
        let (out, dels, inss) = regions(ops.drop_last());
        match ops.last() {
            Op::Del(n) => (out, dels + n as nat, inss),
            Op::Ins(n) => (out, dels, inss + n as nat),
            Op::Equal(n) => (
                (out + del_run(dels as int) + ins_run(inss as int)).push(Op::Equal(n)),
                0,
                0,
            ),
        }
    }
}

/// The script with all deletions of a changed region before its insertions.
pub open spec fn normalized(ops: Seq<Op>) -> Seq<Op> {
    let (out, dels, inss) = regions(ops);
    merged(out + del_run(dels as int) + ins_run(inss as int))
}

proof fn lemma_change_runs<T>(out: Seq<Op>, dels: int, inss: int, a: Seq<T>, b: Seq<T>)
    requires
        0 <= dels,
        0 <= inss,
        old_total(out) + dels <= usize::MAX,
        new_total(out) + inss <= usize::MAX,
    ensures
        ({
            let whole = out + del_run(dels) + ins_run(inss);
            &&& old_total(whole) == old_total(out) + dels
            &&& new_total(whole) == new_total(out) + inss
            &&& cost(whole) == cost(out) + dels + inss
            &&& fits(out, a, b) && old_total(out) + dels <= a.len() && new_total(out) + inss
                <= b.len() ==> fits(whole, a, b)
        }),
{
    let mid = out + del_run(dels);
    let whole = mid + ins_run(inss);
    if dels > 0 {
        assert(mid =~= out.push(Op::Del(dels as usize)));
        lemma_push_run(out, Op::Del(dels as usize), a, b);
    } else {
        assert(mid =~= out);
    }
    if inss > 0 {
        assert(whole =~= mid.push(Op::Ins(inss as usize)));
        lemma_push_run(mid, Op::Ins(inss as usize), a, b);
    } else {
        assert(whole =~= mid);
    }
}

proof fn lemma_regions<T>(ops: Seq<Op>, a: Seq<T>, b: Seq<T>)
    requires
        old_total(ops) <= usize::MAX,
        new_total(ops) <= usize::MAX,
    ensures
        ({
            let (out, dels, inss) = regions(ops);
            &&& old_total(out) + dels == old_total(ops)
            &&& new_total(out) + inss == new_total(ops)
            &&& cost(out) + dels + inss == cost(ops)
            &&& fits(ops, a, b) ==> fits(out, a, b) && old_total(ops) <= a.len() && new_total(ops)
                <= b.len()
        }),
    decreases ops.len(),
{
    if ops.len() > 0 {
        let done = ops.drop_last();
        lemma_regions(done, a, b);
        assert(done.push(ops.last()) =~= ops);
        lemma_push_run(done, ops.last(), a, b);
        let (out, dels, inss) = regions(done);
        if let Op::Equal(n) = ops.last() {
            let whole = out + del_run(dels as int) + ins_run(inss as int);
            lemma_change_runs(out, dels as int, inss as int, a, b);
            lemma_push_run(whole, ops.last(), a, b);
        }
    }
}

/// Ordering the changed regions leaves an equivalent script: it turns `a` into
/// `b` where the given one does, and changes as many lines.
pub proof fn law_normalized_is_equivalent<T>(ops: Seq<Op>, a: Seq<T>, b: Seq<T>)
    requires
        transforms(ops, a, b),
        a.len() <= usize::MAX,
        b.len() <= usize::MAX,
    ensures
        transforms(normalized(ops), a, b),
        cost(normalized(ops)) == cost(ops),
{
    lemma_regions(ops, a, b);
    let (out, dels, inss) = regions(ops);
    lemma_change_runs(out, dels as int, inss as int, a, b);
    lemma_merged(out + del_run(dels as int) + ins_run(inss as int), a, b);
}

/// The script with surfaced newlines is a script between the lines taken with
/// their newlines.
proof fn lemma_surfaced(ops: Seq<Op>, a: Seq<Seq<char>>, b: Seq<Seq<char>>, ends: Ends)
    requires
        fits(ops, a, b),
        ends.a_len == a.len(),
        ends.b_len == b.len(),
    ensures
        old_total(surfaced(ops, ends)) == old_total(ops),
        new_total(surfaced(ops, ends)) == new_total(ops),
        old_total(ops) <= a.len(),
        new_total(ops) <= b.len(),
        fits(surfaced(ops, ends), marked(a, ends.a_nl), marked(b, ends.b_nl)),
    decreases ops.len(),
{
    let ma = marked(a, ends.a_nl);
    let mb = marked(b, ends.b_nl);
    if ops.len() > 0 {
        let done = ops.drop_last();
        let op = ops.last();
        lemma_surfaced(done, a, b, ends);
        let out = surfaced(done, ends);
        let x = old_total(ops) as int;
        let y = new_total(ops) as int;
        let split = surfaced_run(op, x, y, ends);
        if split.len() == 1 && split[0] == op {
            assert(split =~= seq![op]);
            assert(out + split =~= out.push(op));
            lemma_push_run(out, op, ma, mb);
            if let Op::Equal(n) = op {
                let ghost x0 = old_total(done);
                let ghost y0 = new_total(done);
                assert forall|i: int| x0 <= i < x0 + n implies #[trigger] ma[i] == mb[i - x0
                    + y0] by {
                    assert(a[i] == b[i - x0 + y0]);
                }
            }
        } else {
            let n = run_len(op) as int;
            let kept = Op::Equal((n - 1) as usize);
            let head = out + equal_run(n - 1);
            if n > 1 {
                assert(head =~= out.push(kept));
                let ghost x0 = old_total(done);
                let ghost y0 = new_total(done);
                assert forall|i: int| x0 <= i < x0 + n - 1 implies #[trigger] ma[i] == mb[i - x0
                    + y0] by {
                    assert(a[i] == b[i - x0 + y0]);
                }
                lemma_push_run(out, kept, ma, mb);
            } else {
                assert(head =~= out);
            }
            lemma_push_run(head, Op::Del(1), ma, mb);
            lemma_push_run(head.push(Op::Del(1)), Op::Ins(1), ma, mb);
            assert(out + split =~= head.push(Op::Del(1)).push(Op::Ins(1)));
        }
    }
}

/// Surface a changed last newline as a one-line change, the way git does.
fn surface(ops: &Vec<Op>, ends: &Ends) -> (r: Vec<Op>)
    requires
        old_total(ops@) <= usize::MAX,
        new_total(ops@) <= usize::MAX,
    ensures
        r@ == surfaced(ops@, *ends),
{
    let mut out: Vec<Op> = Vec::new();
    let mut x: usize = 0;
    let mut y: usize = 0;
    let mut i: usize = 0;
    assert(ops@.take(0) =~= Seq::<Op>::empty());
    while i < ops.len()
        invariant
            i <= ops@.len(),
            old_total(ops@) <= usize::MAX,
            new_total(ops@) <= usize::MAX,
            x == old_total(ops@.take(i as int)),
            y == new_total(ops@.take(i as int)),
            out@ == surfaced(ops@.take(i as int), *ends),
        decreases ops@.len() - i,
    {
        let op = ops[i];
        proof {
            assert(ops@.take(i + 1).drop_last() =~= ops@.take(i as int));
            assert(ops@ =~= ops@.take(i + 1) + ops@.skip(i + 1));
            lemma_totals_concat(ops@.take(i + 1), ops@.skip(i + 1));
        }
        let ghost before = out@;
        match op {
            Op::Equal(n) => {
                x = x + n;
                y = y + n;
                if n > 0 && (ends.a_nl || x != ends.a_len) != (ends.b_nl || y != ends.b_len) {
                    if n > 1 {
                        out.push(Op::Equal(n - 1));
                    }
                    out.push(Op::Del(1));
                    out.push(Op::Ins(1));
                } else {
                    out.push(op);
                }
            },
            Op::Del(n) => {
                x = x + n;
                out.push(op);
            },
            Op::Ins(n) => {
                y = y + n;
                out.push(op);
            },
        }
        assert(out@ =~= before + surfaced_run(op, x as int, y as int, *ends));
        i = i + 1;
    }
    assert(ops@.take(ops@.len() as int) =~= ops@);
    out
}

/// Within each maximal changed region, list all deletions before all
/// insertions (presentation only; the script stays equivalent).
fn normalize_regions(ops: Vec<Op>) -> (r: Vec<Op>)
    requires
        old_total(ops@) <= usize::MAX,
        new_total(ops@) <= usize::MAX,
    ensures
        r@ == normalized(ops@),
{
    let mut out: Vec<Op> = Vec::new();
    let mut dels: usize = 0;
    let mut inss: usize = 0;
    let mut i: usize = 0;
    assert(ops@.take(0) =~= Seq::<Op>::empty());
    while i < ops.len()
        invariant
            i <= ops@.len(),
            old_total(ops@) <= usize::MAX,
            new_total(ops@) <= usize::MAX,
            regions(ops@.take(i as int)) == (out@, dels as nat, inss as nat),
        decreases ops@.len() - i,
    {
        let op = ops[i];
        proof {
            assert(ops@.take(i + 1).drop_last() =~= ops@.take(i as int));
            assert(ops@ =~= ops@.take(i + 1) + ops@.skip(i + 1));
            lemma_totals_concat(ops@.take(i + 1), ops@.skip(i + 1));
            lemma_regions(ops@.take(i + 1), Seq::<int>::empty(), Seq::<int>::empty());
        }
        let ghost before = out@;
        match op {
            Op::Del(n) => {
                dels = dels + n;
            },
            Op::Ins(n) => {
                inss = inss + n;
            },
            Op::Equal(n) => {
                let ghost d = dels as int;
                let ghost s = inss as int;
                if dels > 0 {
                    out.push(Op::Del(dels));
                    dels = 0;
                }
                if inss > 0 {
                    out.push(Op::Ins(inss));
                    inss = 0;
                }
                assert(out@ =~= before + del_run(d) + ins_run(s));
                out.push(Op::Equal(n));
            },
        }
        i = i + 1;
    }
    assert(ops@.take(ops@.len() as int) =~= ops@);
    let ghost before = out@;
    let ghost d = dels as int;
    let ghost s = inss as int;
    proof {
        lemma_regions(ops@, Seq::<int>::empty(), Seq::<int>::empty());
        lemma_change_runs(before, d, s, Seq::<int>::empty(), Seq::<int>::empty());
    }
    if dels > 0 {
        out.push(Op::Del(dels));
    }
    if inss > 0 {
        out.push(Op::Ins(inss));
    }
    assert(out@ =~= before + del_run(d) + ins_run(s));
    merge(out)
}

/// What a record shows.
#[derive(Debug, Clone, Copy, PartialEq, Eq, Structural)]
pub enum Tag {
    Ctx,
    Del,
    Ins,
}

/// One line of a script, with the position on both sides before it.
#[derive(Debug, Clone, Copy, PartialEq, Eq, Structural)]
pub struct Rec {
    pub tag: Tag,
    pub ai: usize,
    pub bi: usize,
}

/// The records of one run that starts at line `x` and line `y`.
pub open spec fn run_records(op: Op, x: int, y: int) -> Seq<Rec> {
    match op {
        Op::Equal(n) => Seq::new(
            n as nat,
            |i: int| (Rec { tag: Tag::Ctx, ai: (x + i) as usize, bi: (y + i) as usize }),
        ),
        Op::Del(n) => Seq::new(
            n as nat,
            |i: int| (Rec { tag: Tag::Del, ai: (x + i) as usize, bi: y as usize }),
        ),
        Op::Ins(n) => Seq::new(
            n as nat,
            |i: int| (Rec { tag: Tag::Ins, ai: x as usize, bi: (y + i) as usize }),
        ),
    }
}

/// One record per line of the script.
pub open spec fn records(ops: Seq<Op>) -> Seq<Rec>
    decreases ops.len(),
{
    if ops.len() == 0 {
        Seq::empty()
    } else {
        let done = ops.drop_last();
        records(done) + run_records(ops.last(), old_total(done) as int, new_total(done) as int)
    }
}

/// The record is a changed line.
pub open spec fn changed(r: Rec) -> bool {
    r.tag != Tag::Ctx
}

/// Record `i` is shown: a changed line is at most `ctx` records away.
pub open spec fn shown(recs: Seq<Rec>, ctx: usize, i: int) -> bool {
    exists|j: int|
        0 <= j < recs.len() && changed(#[trigger] recs[j]) && i - ctx <= j <= i + ctx
}

/// Where the run of shown records from `i` on ends.
pub open spec fn hunk_end(recs: Seq<Rec>, ctx: usize, i: int) -> int
    decreases recs.len() - i,
{
    if 0 <= i < recs.len() && shown(recs, ctx, i) {
        hunk_end(recs, ctx, i + 1)
    } else {
        i
    }
}

pub proof fn lemma_hunk_end(recs: Seq<Rec>, ctx: usize, i: int)
    requires
        0 <= i <= recs.len(),
    ensures
        i <= hunk_end(recs, ctx, i) <= recs.len(),
        i < recs.len() && shown(recs, ctx, i) ==> i < hunk_end(recs, ctx, i),
    decreases recs.len() - i,
{
    if i < recs.len() && shown(recs, ctx, i) {
        lemma_hunk_end(recs, ctx, i + 1);
    }
}

/// How many of the records are lines of the old side.
pub open spec fn old_lines(recs: Seq<Rec>) -> nat
    decreases recs.len(),
{
    if recs.len() == 0 {
        0
    } else {
        old_lines(recs.drop_last()) + if recs.last().tag != Tag::Ins {
            1nat
        } else {
            0
        }
    }
}

/// How many of the records are lines of the new side.
pub open spec fn new_lines(recs: Seq<Rec>) -> nat
    decreases recs.len(),
{
    if recs.len() == 0 {
        0
    } else {
        new_lines(recs.drop_last()) + if recs.last().tag != Tag::Del {
            1nat
        } else {
            0
        }
    }
}

/// Where a hunk starts on one side: lines count from one, and a hunk without
/// lines on that side names the line before it.
pub open spec fn hunk_start(at: usize, len: nat) -> nat {
    if len > 0 {
        at as nat + 1
    } else {
        at as nat
    }
}

/// The `@@` line of a hunk.
pub open spec fn hunk_header(hunk: Seq<Rec>) -> Seq<char> {
    "@@ -"@ + numeral(hunk_start(hunk[0].ai, old_lines(hunk))) + ","@ + numeral(old_lines(hunk))
        + " +"@ + numeral(hunk_start(hunk[0].bi, new_lines(hunk))) + ","@ + numeral(
        new_lines(hunk),
    ) + " @@\n"@
}

/// The marker that follows the last line of a text without a final newline.
pub open spec fn newline_marker(i: int, n: int, nl: bool) -> Seq<char> {
    if terminated(i, n, nl) {
        ""@
    } else {
        "\\ No newline at end of file\n"@
    }
}

/// How a record is written.
pub open spec fn record_text(r: Rec, a: Seq<Seq<char>>, b: Seq<Seq<char>>, ends: Ends) -> Seq<
    char,
> {
    match r.tag {
        Tag::Ctx => " "@ + a[r.ai as int] + "\n"@ + newline_marker(
            r.ai as int,
            ends.a_len as int,
            ends.a_nl,
        ),
        Tag::Del => "-"@ + a[r.ai as int] + "\n"@ + newline_marker(
            r.ai as int,
            ends.a_len as int,
            ends.a_nl,
        ),
        Tag::Ins => "+"@ + b[r.bi as int] + "\n"@ + newline_marker(
            r.bi as int,
            ends.b_len as int,
            ends.b_nl,
        ),
    }
}

pub open spec fn hunk_body(hunk: Seq<Rec>, a: Seq<Seq<char>>, b: Seq<Seq<char>>, ends: Ends) -> Seq<
    char,
>
    decreases hunk.len(),
{
    if hunk.len() == 0 {
        ""@
    } else {
        hunk_body(hunk.drop_last(), a, b, ends) + record_text(hunk.last(), a, b, ends)
    }
}

/// The hunks from record `i` on: each run of shown records is one hunk.
pub open spec fn hunks_from(
    recs: Seq<Rec>,
    ctx: usize,
    i: int,
    a: Seq<Seq<char>>,
    b: Seq<Seq<char>>,
    ends: Ends,
) -> Seq<char>
    decreases recs.len() - i,
{
    if i < 0 || i >= recs.len() {
        ""@
    } else if !shown(recs, ctx, i) {
        hunks_from(recs, ctx, i + 1, a, b, ends)
    } else {
        proof {
            lemma_hunk_end(recs, ctx, i);
        }
        let j = hunk_end(recs, ctx, i);
        let hunk = recs.subrange(i, j);
        hunk_header(hunk) + hunk_body(hunk, a, b, ends) + hunks_from(recs, ctx, j, a, b, ends)
    }
}

/// The script as it is presented.
pub open spec fn presented(ops: Seq<Op>, ends: Ends) -> Seq<Op> {
    normalized(surfaced(ops, ends))
}

/// The presented script turns the old lines into the new ones, newlines
/// included.
pub proof fn law_presented_script_is_exact(
    ops: Seq<Op>,
    a: Seq<Seq<char>>,
    b: Seq<Seq<char>>,
    ends: Ends,
)
    requires
        transforms(ops, a, b),
        ends.a_len == a.len(),
        ends.b_len == b.len(),
    ensures
        transforms(presented(ops, ends), marked(a, ends.a_nl), marked(b, ends.b_nl)),
{
    lemma_surfaced(ops, a, b, ends);
    law_normalized_is_equivalent(
        surfaced(ops, ends),
        marked(a, ends.a_nl),
        marked(b, ends.b_nl),
    );
}

/// A path without edits joins equal sequences.
proof fn lemma_free_path<T>(a: Seq<T>, b: Seq<T>, x: int, y: int)
    requires
        0 <= x,
        0 <= y,
        path(a, b, 0, x, y),
    ensures
        x == y,
        forall|i: int| 0 <= i < x ==> a[i] == b[i],
    decreases x + y,
{
    if x > 0 && y > 0 {
        lemma_free_path(a, b, x - 1, y - 1);
    }
}

/// A script that changes lines has a changed record.
proof fn lemma_change_has_record(ops: Seq<Op>)
    requires
        cost(ops) > 0,
    ensures
        exists|j: int| 0 <= j < records(ops).len() && changed(#[trigger] records(ops)[j]),
    decreases ops.len(),
{
    let done = ops.drop_last();
    assert(done.push(ops.last()) =~= ops);
    lemma_push_run(done, ops.last(), Seq::<int>::empty(), Seq::<int>::empty());
    if run_cost(ops.last()) > 0 {
        let j = records(done).len() as int;
        assert(changed(records(ops)[j]));
    } else {
        lemma_change_has_record(done);
        let j = choose|j: int| 0 <= j < records(done).len() && changed(#[trigger] records(done)[j]);
        assert(records(ops)[j] == records(done)[j]);
    }
}

/// Where the sides differ, newlines included, some line is shown as changed.
pub proof fn lemma_difference_is_shown(
    ops: Seq<Op>,
    a: Seq<Seq<char>>,
    b: Seq<Seq<char>>,
    ends: Ends,
)
    requires
        transforms(ops, a, b),
        ends.a_len == a.len(),
        ends.b_len == b.len(),
        marked(a, ends.a_nl) != marked(b, ends.b_nl),
    ensures
        exists|j: int|
            0 <= j < records(presented(ops, ends)).len() && changed(
                #[trigger] records(presented(ops, ends))[j],
            ),
{
    let ma = marked(a, ends.a_nl);
    let mb = marked(b, ends.b_nl);
    let p = presented(ops, ends);
    law_presented_script_is_exact(ops, a, b, ends);
    if cost(p) == 0 {
        crate::script::lemma_script_is_path(p, ma, mb);
        lemma_free_path(ma, mb, ma.len() as int, mb.len() as int);
        assert(ma =~= mb);
    }
    lemma_change_has_record(p);
}

/// Positions never go back, stay inside both sides, and a record that shows a
/// line of a side is before the end of that side.
proof fn lemma_records<T>(ops: Seq<Op>, a: Seq<T>, b: Seq<T>)
    requires
        fits(ops, a, b),
        a.len() <= usize::MAX,
        b.len() <= usize::MAX,
    ensures
        ({
            let recs = records(ops);
            &&& forall|i: int| 0 <= i < recs.len() ==> (#[trigger] recs[i]).ai <= old_total(ops)
            &&& forall|i: int| 0 <= i < recs.len() ==> (#[trigger] recs[i]).bi <= new_total(ops)
            &&& forall|i: int|
                0 <= i < recs.len() && recs[i].tag != Tag::Ins ==> (#[trigger] recs[i]).ai
                    < old_total(ops)
            &&& forall|i: int|
                0 <= i < recs.len() && recs[i].tag != Tag::Del ==> (#[trigger] recs[i]).bi
                    < new_total(ops)
            &&& forall|i: int, j: int|
                0 <= i <= j < recs.len() ==> (#[trigger] recs[i]).ai <= (#[trigger] recs[j]).ai
            &&& forall|i: int, j: int|
                0 <= i <= j < recs.len() ==> (#[trigger] recs[i]).bi <= (#[trigger] recs[j]).bi
        }),
        old_total(ops) <= a.len(),
        new_total(ops) <= b.len(),
    decreases ops.len(),
{
    if ops.len() > 0 {
        let done = ops.drop_last();
        lemma_records(done, a, b);
        let recs = records(ops);
        let k = records(done).len();
        assert forall|i: int| 0 <= i < k implies recs[i] == records(done)[i] by {}
        let x = old_total(done) as int;
        let y = new_total(done) as int;
        assert forall|i: int| k <= i < recs.len() implies (#[trigger] recs[i])
            == run_records(ops.last(), x, y)[i - k] by {}
    }
}

proof fn lemma_old_lines_bound(recs: Seq<Rec>)
    ensures
        old_lines(recs) <= recs.len(),
        new_lines(recs) <= recs.len(),
        old_lines(recs) > 0 ==> exists|i: int|
            0 <= i < recs.len() && (#[trigger] recs[i]).tag != Tag::Ins,
        new_lines(recs) > 0 ==> exists|i: int|
            0 <= i < recs.len() && (#[trigger] recs[i]).tag != Tag::Del,
    decreases recs.len(),
{
    if recs.len() > 0 {
        let head = recs.drop_last();
        lemma_old_lines_bound(head);
        if old_lines(head) > 0 {
            let i = choose|i: int| 0 <= i < head.len() && (#[trigger] head[i]).tag != Tag::Ins;
            assert(recs[i].tag != Tag::Ins);
        }
        if new_lines(head) > 0 {
            let i = choose|i: int| 0 <= i < head.len() && (#[trigger] head[i]).tag != Tag::Del;
            assert(recs[i].tag != Tag::Del);
        }
        assert(recs[recs.len() - 1] == recs.last());
    }
}

/// Expand a script to per-line records carrying both cursors.
fn expand(ops: &Vec<Op>) -> (r: Vec<Rec>)
    requires
        old_total(ops@) <= usize::MAX,
        new_total(ops@) <= usize::MAX,
    ensures
        r@ == records(ops@),
{
    let mut recs: Vec<Rec> = Vec::new();
    let mut ai: usize = 0;
    let mut bi: usize = 0;
    let mut k: usize = 0;
    assert(ops@.take(0) =~= Seq::<Op>::empty());
    while k < ops.len()
        invariant
            k <= ops@.len(),
            old_total(ops@) <= usize::MAX,
            new_total(ops@) <= usize::MAX,
            ai == old_total(ops@.take(k as int)),
            bi == new_total(ops@.take(k as int)),
            recs@ == records(ops@.take(k as int)),
        decreases ops@.len() - k,
    {
        let op = ops[k];
        proof {
            assert(ops@.take(k + 1).drop_last() =~= ops@.take(k as int));
            assert(ops@ =~= ops@.take(k + 1) + ops@.skip(k + 1));
            lemma_totals_concat(ops@.take(k + 1), ops@.skip(k + 1));
        }
        let ghost before = recs@;
        let ghost x0 = ai as int;
        let ghost y0 = bi as int;
        let (tag, n, da, db): (Tag, usize, usize, usize) = match op {
            Op::Equal(n) => (Tag::Ctx, n, 1, 1),
            Op::Del(n) => (Tag::Del, n, 1, 0),
            Op::Ins(n) => (Tag::Ins, n, 0, 1),
        };
        let mut i: usize = 0;
        assert(recs@ =~= before + run_records(op, x0, y0).take(0));
        while i < n
            invariant
                i <= n,
                n == run_len(op),
                da == (if op is Ins { 0int } else { 1int }),
                db == (if op is Del { 0int } else { 1int }),
                tag == (match op { Op::Equal(_) => Tag::Ctx, Op::Del(_) => Tag::Del, Op::Ins(_) => Tag::Ins }),
                x0 + old_span(op) <= usize::MAX,
                y0 + new_span(op) <= usize::MAX,
                ai == x0 + i * da,
                bi == y0 + i * db,
                recs@ == before + run_records(op, x0, y0).take(i as int),
            decreases n - i,
        {
            recs.push(Rec { tag, ai, bi });
            proof {
                assert((i + 1) * da == i * da + da) by (nonlinear_arith);
                assert((i + 1) * db == i * db + db) by (nonlinear_arith);
                assert(da == 1 ==> i * da == i) by (nonlinear_arith);
                assert(db == 1 ==> i * db == i) by (nonlinear_arith);
                assert(da == 0 ==> i * da == 0) by (nonlinear_arith);
                assert(db == 0 ==> i * db == 0) by (nonlinear_arith);
            }
            ai = ai + da;
            bi = bi + db;
            i = i + 1;
            assert(recs@ =~= before + run_records(op, x0, y0).take(i as int));
        }
        assert(run_records(op, x0, y0).take(n as int) =~= run_records(op, x0, y0));
        proof {
            assert(da == 1 ==> n * da == n) by (nonlinear_arith);
            assert(db == 1 ==> n * db == n) by (nonlinear_arith);
            assert(da == 0 ==> n * da == 0) by (nonlinear_arith);
            assert(db == 0 ==> n * db == 0) by (nonlinear_arith);
        }
        k = k + 1;
    }
    assert(ops@.take(ops@.len() as int) =~= ops@);
    recs
}

/// Keep changed records plus `ctx` lines of context around each.
fn keep_flags(recs: &Vec<Rec>, ctx: usize) -> (keep: Vec<bool>)
    ensures
        keep@.len() == recs@.len(),
        forall|i: int| 0 <= i < keep@.len() ==> #[trigger] keep@[i] == shown(recs@, ctx, i),
{
    let n: usize = recs.len();
    let mut keep: Vec<bool> = vec![false; n];
    let mut i: usize = 0;
    while i < n
        invariant
            i <= n,
            n == recs@.len(),
            keep@.len() == n,
            forall|t: int| #![trigger keep@[t]]
                0 <= t < n ==> (keep@[t] <==> exists|j: int|
                    0 <= j < i && changed(#[trigger] recs@[j]) && t - ctx <= j <= t + ctx),
        decreases n - i,
    {
        let ghost before = keep@;
        if recs[i].tag != Tag::Ctx {
            let lo: usize = if i < ctx {
                0
            } else {
                i - ctx
            };
            let hi: usize = if ctx < n - i {
                i + ctx
            } else {
                n - 1
            };
            let mut t: usize = lo;
            while t <= hi
                invariant
                    lo <= t <= hi + 1,
                    hi < n,
                    keep@.len() == n,
                    forall|u: int| #![trigger keep@[u]]
                        0 <= u < n ==> keep@[u] == (before[u] || lo <= u < t),
                decreases hi + 1 - t,
            {
                keep.set(t, true);
                t = t + 1;
            }
            assert forall|u: int| #![trigger keep@[u]] 0 <= u < n implies (keep@[u] <==> exists|
                j: int,
            |
                0 <= j < i + 1 && changed(#[trigger] recs@[j]) && u - ctx <= j <= u + ctx) by {
                assert(before[u] <==> exists|j: int|
                    0 <= j < i && changed(#[trigger] recs@[j]) && u - ctx <= j <= u + ctx);
                if lo <= u <= hi {
                    assert(changed(recs@[i as int]));
                }
            }
        }
        i = i + 1;
    }
    keep
}

/// Append the text of the records `i..j` to `out`.
fn push_body(
    out: &mut String,
    recs: &Vec<Rec>,
    i: usize,
    j: usize,
    a: &[&str],
    b: &[&str],
    ends: &Ends,
)
    requires
        i <= j <= recs@.len(),
        ends.a_len == a@.len(),
        ends.b_len == b@.len(),
        forall|k: int|
            0 <= k < recs@.len() && recs@[k].tag != Tag::Ins ==> (#[trigger] recs@[k]).ai
                < a@.len(),
        forall|k: int|
            0 <= k < recs@.len() && recs@[k].tag != Tag::Del ==> (#[trigger] recs@[k]).bi
                < b@.len(),
    ensures
        final(out)@ == old(out)@ + hunk_body(
            recs@.subrange(i as int, j as int),
            texts(a@),
            texts(b@),
            *ends,
        ),
{
    let ghost start = out@;
    let mut k: usize = i;
    proof {
        reveal_strlit("");
        assert(recs@.subrange(i as int, i as int) =~= Seq::<Rec>::empty());
        assert(start + ""@ =~= start);
    }
    while k < j
        invariant
            i <= k <= j <= recs@.len(),
            ends.a_len == a@.len(),
            ends.b_len == b@.len(),
            forall|k: int|
                0 <= k < recs@.len() && recs@[k].tag != Tag::Ins ==> (#[trigger] recs@[k]).ai
                    < a@.len(),
            forall|k: int|
                0 <= k < recs@.len() && recs@[k].tag != Tag::Del ==> (#[trigger] recs@[k]).bi
                    < b@.len(),
            out@ == start + hunk_body(
                recs@.subrange(i as int, k as int),
                texts(a@),
                texts(b@),
                *ends,
            ),
        decreases j - k,
    {
        let r = recs[k];
        let ghost before = out@;
        let open: bool;
        match r.tag {
            Tag::Ctx => {
                out.append(" ");
                out.append(a[r.ai]);
                open = r.ai == ends.a_len - 1 && !ends.a_nl;
            },
            Tag::Del => {
                out.append("-");
                out.append(a[r.ai]);
                open = r.ai == ends.a_len - 1 && !ends.a_nl;
            },
            Tag::Ins => {
                out.append("+");
                out.append(b[r.bi]);
                open = r.bi == ends.b_len - 1 && !ends.b_nl;
            },
        }
        out.append("\n");
        if open {
            out.append("\\ No newline at end of file\n");
        }
        proof {
            reveal_strlit("");
            assert(out@ =~= before + record_text(r, texts(a@), texts(b@), *ends));
            assert(recs@.subrange(i as int, k + 1).drop_last() =~= recs@.subrange(
                i as int,
                k as int,
            ));
            assert(out@ =~= start + hunk_body(
                recs@.subrange(i as int, k + 1),
                texts(a@),
                texts(b@),
                *ends,
            ));
        }
        k = k + 1;
    }
}

/// Append the `@@` line of the hunk `i..j` to `out`.
fn push_header(out: &mut String, recs: &Vec<Rec>, i: usize, j: usize)
    requires
        i < j <= recs@.len(),
        old_lines(recs@.subrange(i as int, j as int)) > 0 ==> recs@[i as int].ai < usize::MAX,
        new_lines(recs@.subrange(i as int, j as int)) > 0 ==> recs@[i as int].bi < usize::MAX,
    ensures
        final(out)@ == old(out)@ + hunk_header(recs@.subrange(i as int, j as int)),
{
    let ghost hunk = recs@.subrange(i as int, j as int);
    let ghost start = out@;
    let mut a_len: usize = 0;
    let mut b_len: usize = 0;
    let mut k: usize = i;
    assert(recs@.subrange(i as int, i as int) =~= Seq::<Rec>::empty());
    while k < j
        invariant
            i <= k <= j <= recs@.len(),
            a_len == old_lines(recs@.subrange(i as int, k as int)),
            b_len == new_lines(recs@.subrange(i as int, k as int)),
            a_len <= k - i,
            b_len <= k - i,
        decreases j - k,
    {
        assert(recs@.subrange(i as int, k + 1).drop_last() =~= recs@.subrange(
            i as int,
            k as int,
        ));
        if recs[k].tag != Tag::Ins {
            a_len = a_len + 1;
        }
        if recs[k].tag != Tag::Del {
            b_len = b_len + 1;
        }
        k = k + 1;
    }
    let first = recs[i];
    let a_start: usize = if a_len > 0 {
        first.ai + 1
    } else {
        first.ai
    };
    let b_start: usize = if b_len > 0 {
        first.bi + 1
    } else {
        first.bi
    };
    out.append("@@ -");
    let s = decimal(a_start as u64);
    out.append(s.as_str());
    out.append(",");
    let s = decimal(a_len as u64);
    out.append(s.as_str());
    out.append(" +");
    let s = decimal(b_start as u64);
    out.append(s.as_str());
    out.append(",");
    let s = decimal(b_len as u64);
    out.append(s.as_str());
    out.append(" @@\n");
    assert(out@ =~= start + hunk_header(hunk));
}

/// Append every hunk of the presented form of `ops` to `out`.
pub(crate) fn push_hunks(
    out: &mut String,
    ops: &Vec<Op>,
    a: &[&str],
    b: &[&str],
    ends: &Ends,
    ctx: usize,
)
    requires
        transforms(ops@, texts(a@), texts(b@)),
        ends.a_len == a@.len(),
        ends.b_len == b@.len(),
    ensures
        final(out)@ == old(out)@ + hunks_from(
            records(presented(ops@, *ends)),
            ctx,
            0,
            texts(a@),
            texts(b@),
            *ends,
        ),
{
    let ghost sa = texts(a@);
    let ghost sb = texts(b@);
    let ghost start = out@;
    proof {
        lemma_surfaced(ops@, sa, sb, *ends);
        law_presented_script_is_exact(ops@, sa, sb, *ends);
    }
    let plain = surface(ops, ends);
    let ordered = normalize_regions(plain);
    proof {
        lemma_records(ordered@, marked(sa, ends.a_nl), marked(sb, ends.b_nl));
    }
    let recs = expand(&ordered);
    let keep = keep_flags(&recs, ctx);
    let ghost rs = recs@;
    let mut i: usize = 0;
    while i < recs.len()
        invariant
            i <= rs.len(),
            rs == recs@,
            sa == texts(a@),
            sb == texts(b@),
            ends.a_len == a@.len(),
            ends.b_len == b@.len(),
            keep@.len() == rs.len(),
            forall|t: int| 0 <= t < rs.len() ==> #[trigger] keep@[t] == shown(rs, ctx, t),
            forall|k: int|
                0 <= k < rs.len() && rs[k].tag != Tag::Ins ==> (#[trigger] rs[k]).ai < a@.len(),
            forall|k: int|
                0 <= k < rs.len() && rs[k].tag != Tag::Del ==> (#[trigger] rs[k]).bi < b@.len(),
            forall|k: int, l: int|
                0 <= k <= l < rs.len() ==> (#[trigger] rs[k]).ai <= (#[trigger] rs[l]).ai,
            forall|k: int, l: int|
                0 <= k <= l < rs.len() ==> (#[trigger] rs[k]).bi <= (#[trigger] rs[l]).bi,
            out@ + hunks_from(rs, ctx, i as int, sa, sb, *ends) == start + hunks_from(
                rs,
                ctx,
                0,
                sa,
                sb,
                *ends,
            ),
        decreases rs.len() - i,
    {
        if !keep[i] {
            i = i + 1;
            continue;
        }
        let mut j: usize = i;
        while j < recs.len() && keep[j]
            invariant
                i <= j <= rs.len(),
                rs == recs@,
                keep@.len() == rs.len(),
                forall|t: int| 0 <= t < rs.len() ==> #[trigger] keep@[t] == shown(rs, ctx, t),
                hunk_end(rs, ctx, j as int) == hunk_end(rs, ctx, i as int),
            decreases rs.len() - j,
        {
            j = j + 1;
        }
        let ghost before = out@;
        let ghost hunk = rs.subrange(i as int, j as int);
        proof {
            lemma_hunk_end(rs, ctx, i as int);
            lemma_old_lines_bound(hunk);
            if old_lines(hunk) > 0 {
                let k = choose|k: int|
                    0 <= k < hunk.len() && (#[trigger] hunk[k]).tag != Tag::Ins;
                assert(rs[i + k] == hunk[k]);
                assert(rs[i as int].ai <= rs[i + k].ai);
            }
            if new_lines(hunk) > 0 {
                let k = choose|k: int|
                    0 <= k < hunk.len() && (#[trigger] hunk[k]).tag != Tag::Del;
                assert(rs[i + k] == hunk[k]);
                assert(rs[i as int].bi <= rs[i + k].bi);
            }
        }
        push_header(out, &recs, i, j);
        push_body(out, &recs, i, j, a, b, ends);
        assert(out@ + hunks_from(rs, ctx, j as int, sa, sb, *ends) =~= before + hunks_from(
            rs,
            ctx,
            i as int,
            sa,
            sb,
            *ends,
        ));
        i = j;
    }
    proof {
        reveal_strlit("");
        assert(out@ =~= start + hunks_from(rs, ctx, 0, sa, sb, *ends));
    }
}

} // verus!
