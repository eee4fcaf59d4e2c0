//! Line diff engine: a greedy shortest-script search with common
//! prefix/suffix trimming, plus a unified-format renderer. Pure and
//! deterministic; both the diff output and the blame attribution are built
//! on it.

use vstd::prelude::*;
use vstd::slice::slice_subrange;

use crate::hunks::{
    changed, hunks_from, lemma_difference_is_shown, marked, presented, push_hunks, records, Ends,
};
use crate::myers::{greedy, lemma_greedy, lemma_merged, lemma_push_run, lemma_totals_concat, merge, merged, myers, slide};
use crate::script::{
    canonical, cost, deleted, distance, fits, inserted, lemma_distance_of_prefixes,
    lemma_distance_skips_prefix, lemma_distance_skips_suffix, law_no_script_beats_distance, new_total, old_total, run_fits,
    run_len, transforms,
};
use crate::text::{
    break_lines, ends_with_newline, lemma_joined_pieces, lemma_last_piece, lemma_pieces_nonempty,
    lines_of, no_open_line, pieces, same, texts,
};

verus! {

/// One run of a line-level edit script, in order from the top of the file.
#[derive(Debug, Clone, Copy, PartialEq, Eq, Structural)]
pub enum Op {
    /// The next `n` lines are identical on both sides.
    Equal(usize),
    /// The next `n` lines of the old side are deleted.
    Del(usize),
    /// The next `n` lines of the new side are inserted.
    Ins(usize),
}

/// Split text into lines the way diff tools do: a trailing newline does not
/// create a phantom empty line. Returns the lines and whether the text ended
/// with a newline (needed for the `\ No newline at end of file` marker).
pub fn split_lines<'a>(text: &'a str) -> (r: (Vec<&'a str>, bool))
    ensures
        texts(r.0@) == lines_of(text@),
        r.1 == ends_with_newline(text@),
{
    break_lines(text)
}

/// A NUL byte stands in the first 8 KiB.
pub open spec fn binary(data: Seq<u8>) -> bool {
    exists|i: int| 0 <= i < data.len() && i < 8192 && data[i] == 0
}

/// NUL sniff over the first 8 KiB, the same heuristic git uses.
pub fn is_binary(data: &[u8]) -> (r: bool)
    ensures
        r == binary(data@),
{
    let mut i: usize = 0;
    while i < data.len() && i < 8192
        invariant
            i <= data@.len(),
            forall|j: int| 0 <= j < i ==> data@[j] != 0,
        decreases data@.len() - i,
    {
        if data[i] == 0 {
            return true;
        }
        i = i + 1;
    }
    false
}

/// How many lines `a` and `b` have in common at the end, counted on from `s`,
/// without running into the first `lo` lines of either.
pub open spec fn common_tail<T>(a: Seq<T>, b: Seq<T>, lo: int, s: int) -> int
    decreases a.len() - lo - s,
{
    if 0 <= lo && 0 <= s < a.len() - lo && s < b.len() - lo && a[a.len() - 1 - s] == b[b.len() - 1 - s] {
        common_tail(a, b, lo, s + 1)
    } else {
        s
    }
}

/// A run of `n` equal lines, left out where `n` is zero.
pub open spec fn equal_run(n: int) -> Seq<Op> {
    if n > 0 {
        seq![Op::Equal(n as usize)]
    } else {
        Seq::empty()
    }
}

/// The edit script between two lists of lines: what the greedy search finds
/// between the common head and the common tail.
pub open spec fn line_script<T>(a: Seq<T>, b: Seq<T>) -> Seq<Op> {
    let pre = slide(a, b, 0, 0);
    let suf = common_tail(a, b, pre, 0);
    merged(
        equal_run(pre) + greedy(a.subrange(pre, a.len() - suf), b.subrange(pre, b.len() - suf))
            + equal_run(suf),
    )
}

proof fn lemma_head<T>(a: Seq<T>, b: Seq<T>, x: int)
    requires
        0 <= x <= a.len(),
        x <= b.len(),
        forall|i: int| 0 <= i < x ==> a[i] == b[i],
    ensures
        x <= slide(a, b, x, x) <= a.len(),
        slide(a, b, x, x) <= b.len(),
        forall|i: int| 0 <= i < slide(a, b, x, x) ==> a[i] == b[i],
    decreases a.len() - x,
{
    if x < a.len() && x < b.len() && a[x] == b[x] {
        lemma_head(a, b, x + 1);
    }
}

proof fn lemma_tail<T>(a: Seq<T>, b: Seq<T>, lo: int, s: int)
    requires
        0 <= s,
        0 <= lo,
        lo + s <= a.len(),
        lo + s <= b.len(),
        forall|i: int|
            a.len() - s <= i < a.len() ==> #[trigger] a[i] == b[i - a.len() + b.len()],
    ensures
        ({
            let t = common_tail(a, b, lo, s);
            &&& s <= t
            &&& lo + t <= a.len()
            &&& lo + t <= b.len()
            &&& forall|i: int|
                a.len() - t <= i < a.len() ==> #[trigger] a[i] == b[i - a.len() + b.len()]
        }),
    decreases a.len() - s,
{
    if s < a.len() - lo && s < b.len() - lo && a[a.len() - 1 - s] == b[b.len() - 1 - s] {
        lemma_tail(a, b, lo, s + 1);
    }
}

/// A script for a window of both sides fits after a script that leads up to it.
proof fn lemma_fits_window<T>(
    p: Seq<Op>,
    q: Seq<Op>,
    a: Seq<T>,
    b: Seq<T>,
    x: int,
    y: int,
)
    requires
        fits(p, a, b),
        old_total(p) <= x <= a.len(),
        new_total(p) <= y <= b.len(),
        fits(q, a.subrange(old_total(p) as int, x), b.subrange(new_total(p) as int, y)),
    ensures
        fits(p + q, a, b),
    decreases q.len(),
{
    if q.len() == 0 {
        assert(p + q =~= p);
    } else {
        let wa = a.subrange(old_total(p) as int, x);
        let wb = b.subrange(new_total(p) as int, y);
        let done = q.drop_last();
        lemma_fits_window(p, done, a, b, x, y);
        lemma_totals_concat(p, done);
        assert((p + q).drop_last() =~= p + done);
        let ghost ox = old_total(done);
        let ghost oy = new_total(done);
        if let Op::Equal(n) = q.last() {
            assert forall|i: int| old_total(p) + ox <= i < old_total(p) + ox + n implies
                #[trigger] a[i] == b[i - (old_total(p) + ox) + (new_total(p) + oy)] by {
                assert(wa[i - old_total(p)] == a[i]);
                assert(wb[i - old_total(p) - ox + oy] == b[i - (old_total(p) + ox) + (new_total(p)
                    + oy)]);
            }
        }
        assert(run_fits(q.last(), a, b, old_total(p + done), new_total(p + done)));
    }
}

proof fn lemma_equal_run(n: int)
    requires
        0 <= n <= usize::MAX,
    ensures
        old_total(equal_run(n)) == n,
        new_total(equal_run(n)) == n,
        inserted(equal_run(n)) == 0,
        deleted(equal_run(n)) == 0,
{
    if n > 0 {
        let empty = Seq::<Op>::empty();
        let op = Op::Equal(n as usize);
        assert(empty.push(op) =~= equal_run(n));
        lemma_push_run(empty, op, Seq::<int>::empty(), Seq::<int>::empty());
    }
}

/// A script for the middle, between a common head and a common tail, makes a
/// script for the whole.
proof fn lemma_around_core<T>(a: Seq<T>, b: Seq<T>, pre: int, suf: int, core: Seq<Op>)
    requires
        0 <= pre,
        0 <= suf,
        pre + suf <= a.len() <= usize::MAX,
        pre + suf <= b.len() <= usize::MAX,
        forall|i: int| 0 <= i < pre ==> a[i] == b[i],
        forall|i: int|
            a.len() - suf <= i < a.len() ==> #[trigger] a[i] == b[i - a.len() + b.len()],
        transforms(core, a.subrange(pre, a.len() - suf), b.subrange(pre, b.len() - suf)),
    ensures
        transforms(equal_run(pre) + core + equal_run(suf), a, b),
        cost(equal_run(pre) + core + equal_run(suf)) == cost(core),
{
    let n = a.len() as int;
    let m = b.len() as int;
    let p = equal_run(pre);
    let t = equal_run(suf);
    let whole = p + core + t;
    lemma_equal_run(pre);
    lemma_equal_run(suf);
    if pre > 0 {
        lemma_push_run(Seq::empty(), Op::Equal(pre as usize), a, b);
        assert(Seq::<Op>::empty().push(Op::Equal(pre as usize)) =~= p);
    }
    assert(fits(p, a, b));
    lemma_fits_window(p, core, a, b, n - suf, m - suf);
    lemma_totals_concat(p, core);
    lemma_totals_concat(p + core, t);
    if suf > 0 {
        lemma_push_run(p + core, Op::Equal(suf as usize), a, b);
        assert((p + core).push(Op::Equal(suf as usize)) =~= whole);
    } else {
        assert(whole =~= p + core);
    }
}

/// The distance is that of the middle.
proof fn lemma_distance_of_core<T>(a: Seq<T>, b: Seq<T>, pre: int, suf: int)
    requires
        0 <= pre,
        0 <= suf,
        pre + suf <= a.len(),
        pre + suf <= b.len(),
        forall|i: int| 0 <= i < pre ==> a[i] == b[i],
        forall|i: int|
            a.len() - suf <= i < a.len() ==> #[trigger] a[i] == b[i - a.len() + b.len()],
    ensures
        distance(a, b) == distance(
            a.subrange(pre, a.len() - suf),
            b.subrange(pre, b.len() - suf),
        ),
{
    lemma_distance_skips_suffix(a, b, suf as nat);
    let x = (a.len() - suf - pre) as nat;
    let y = (b.len() - suf - pre) as nat;
    lemma_distance_skips_prefix(a, b, pre as nat, x, y);
    lemma_distance_of_prefixes(a.skip(pre), b.skip(pre), x as int, y as int, x, y);
    assert(a.skip(pre).take(x as int) =~= a.subrange(pre, a.len() - suf));
    assert(b.skip(pre).take(y as int) =~= b.subrange(pre, b.len() - suf));
}

/// The edit script turns `a` into `b`, has no empty and no mergeable runs, and
/// changes as few lines as any script can.
pub proof fn law_line_script_is_shortest<T>(a: Seq<T>, b: Seq<T>)
    requires
        a.len() <= usize::MAX,
        b.len() <= usize::MAX,
    ensures
        transforms(line_script(a, b), a, b),
        canonical(line_script(a, b)),
        cost(line_script(a, b)) == distance(a, b),
        forall|ops: Seq<Op>| #[trigger]
            transforms(ops, a, b) ==> cost(line_script(a, b)) <= cost(ops),
{
    let pre = slide(a, b, 0, 0);
    let suf = common_tail(a, b, pre, 0);
    lemma_head(a, b, 0);
    lemma_tail(a, b, pre, 0);
    let core = greedy(a.subrange(pre, a.len() - suf), b.subrange(pre, b.len() - suf));
    lemma_greedy(a.subrange(pre, a.len() - suf), b.subrange(pre, b.len() - suf));
    lemma_around_core(a, b, pre, suf, core);
    lemma_distance_of_core(a, b, pre, suf);
    let whole = equal_run(pre) + core + equal_run(suf);
    assert forall|i: int| 0 <= i < whole.len() implies run_len(#[trigger] whole[i]) > 0 by {
        let p = equal_run(pre).len();
        if p <= i < p + core.len() {
            assert(whole[i] == core[i - p]);
        }
    }
    lemma_merged(whole, a, b);
    assert forall|ops: Seq<Op>| #[trigger] transforms(ops, a, b) implies cost(line_script(a, b))
        <= cost(ops) by {
        law_no_script_beats_distance(ops, a, b);
    }
}

/// Minimal edit script between two line slices.
pub fn diff_ops(a: &[&str], b: &[&str]) -> (r: Vec<Op>)
    ensures
        r@ == line_script(texts(a@), texts(b@)),
        transforms(r@, texts(a@), texts(b@)),
        canonical(r@),
        cost(r@) == distance(texts(a@), texts(b@)),
{
    let ghost sa = texts(a@);
    let ghost sb = texts(b@);
    let mut pre: usize = 0;
    while pre < a.len() && pre < b.len() && same(a[pre], b[pre])
        invariant
            pre <= a@.len(),
            pre <= b@.len(),
            sa == texts(a@),
            sb == texts(b@),
            slide(sa, sb, pre as int, pre as int) == slide(sa, sb, 0, 0),
        decreases a@.len() - pre,
    {
        pre = pre + 1;
    }
    let mut suf: usize = 0;
    while suf < a.len() - pre && suf < b.len() - pre && same(
        a[a.len() - 1 - suf],
        b[b.len() - 1 - suf],
    )
        invariant
            pre + suf <= a@.len(),
            pre + suf <= b@.len(),
            sa == texts(a@),
            sb == texts(b@),
            common_tail(sa, sb, pre as int, suf as int) == common_tail(sa, sb, pre as int, 0),
        decreases a@.len() - suf,
    {
        suf = suf + 1;
    }
    let core_a = slice_subrange(a, pre, a.len() - suf);
    let core_b = slice_subrange(b, pre, b.len() - suf);
    let mut core = myers(core_a, core_b);
    let ghost found = core@;
    proof {
        assert(texts(core_a@) =~= sa.subrange(pre as int, sa.len() - suf));
        assert(texts(core_b@) =~= sb.subrange(pre as int, sb.len() - suf));
        lemma_head(sa, sb, 0);
        lemma_tail(sa, sb, pre as int, 0);
        lemma_greedy(texts(core_a@), texts(core_b@));
        lemma_equal_run(pre as int);
        lemma_equal_run(suf as int);
        lemma_totals_concat(equal_run(pre as int), found);
        lemma_totals_concat(equal_run(pre as int) + found, equal_run(suf as int));
    }
    let mut ops: Vec<Op> = Vec::new();
    if pre > 0 {
        ops.push(Op::Equal(pre));
    }
    assert(ops@ =~= equal_run(pre as int));
    ops.append(&mut core);
    if suf > 0 {
        ops.push(Op::Equal(suf));
    }
    assert(ops@ =~= equal_run(pre as int) + found + equal_run(suf as int));
    proof {
        law_line_script_is_shortest(sa, sb);
    }
    merge(ops)
}

/// Total `(added, removed)` line counts of an edit script.
pub fn counts(ops: &[Op]) -> (r: (usize, usize))
    requires
        inserted(ops@) <= usize::MAX,
        deleted(ops@) <= usize::MAX,
    ensures
        r.0 == inserted(ops@),
        r.1 == deleted(ops@),
{
    let mut add: usize = 0;
    let mut rem: usize = 0;
    let mut i: usize = 0;
    assert(ops@.take(0) =~= Seq::<Op>::empty());
    while i < ops.len()
        invariant
            i <= ops@.len(),
            inserted(ops@) <= usize::MAX,
            deleted(ops@) <= usize::MAX,
            add == inserted(ops@.take(i as int)),
            rem == deleted(ops@.take(i as int)),
        decreases ops@.len() - i,
    {
        proof {
            assert(ops@.take(i + 1).drop_last() =~= ops@.take(i as int));
            assert(ops@ =~= ops@.take(i + 1) + ops@.skip(i + 1));
            lemma_totals_concat(ops@.take(i + 1), ops@.skip(i + 1));
        }
        match ops[i] {
            Op::Ins(n) => {
                add = add + n;
            },
            Op::Del(n) => {
                rem = rem + n;
            },
            Op::Equal(_) => {},
        }
        i = i + 1;
    }
    assert(ops@.take(ops@.len() as int) =~= ops@);
    (add, rem)
}

/// The lengths and final newlines of two texts.
pub open spec fn ends_of(a_text: Seq<char>, b_text: Seq<char>) -> Ends {
    Ends {
        a_len: lines_of(a_text).len() as usize,
        b_len: lines_of(b_text).len() as usize,
        a_nl: no_open_line(a_text),
        b_nl: no_open_line(b_text),
    }
}

/// The script that a unified diff of two texts presents.
pub open spec fn shown_script(a_text: Seq<char>, b_text: Seq<char>) -> Seq<Op> {
    presented(
        line_script(lines_of(a_text), lines_of(b_text)),
        ends_of(a_text, b_text),
    )
}

/// The two lines that head a unified diff.
pub open spec fn diff_header(a_label: Seq<char>, b_label: Seq<char>) -> Seq<char> {
    "--- "@ + a_label + "\n+++ "@ + b_label + "\n"@
}

/// The two lines that head a unified diff.
pub fn render_diff_header(a_label: &str, b_label: &str) -> (r: String)
    ensures
        r@ == diff_header(a_label@, b_label@),
{
    let mut out = "--- ".to_string();
    out.append(a_label);
    out.append("\n+++ ");
    out.append(b_label);
    out.append("\n");
    out
}

/// The unified diff of two texts that differ.
pub open spec fn unified_text(
    a_label: Seq<char>,
    b_label: Seq<char>,
    a_text: Seq<char>,
    b_text: Seq<char>,
    ctx: usize,
) -> Seq<char> {
    diff_header(a_label, b_label) + hunks_from(
        records(shown_script(a_text, b_text)),
        ctx,
        0,
        lines_of(a_text),
        lines_of(b_text),
        ends_of(a_text, b_text),
    )
}

/// A text is determined by its lines and its final newline.
proof fn lemma_lines_determine_text(s: Seq<char>, t: Seq<char>)
    requires
        lines_of(s) == lines_of(t),
        no_open_line(s) == no_open_line(t),
    ensures
        s == t,
{
    lemma_joined_pieces(s, '\n');
    lemma_joined_pieces(t, '\n');
    if s.len() > 0 {
        lemma_pieces_nonempty(s, '\n');
        lemma_pieces_nonempty(s.drop_last(), '\n');
        lemma_last_piece(s);
    }
    if t.len() > 0 {
        lemma_pieces_nonempty(t, '\n');
        lemma_pieces_nonempty(t.drop_last(), '\n');
        lemma_last_piece(t);
    }
    if s.len() == 0 {
        assert(t.len() == 0);
        assert(s =~= t);
    } else if t.len() == 0 {
        assert(s.len() == 0);
    } else {
        assert(pieces(s, '\n') =~= pieces(t, '\n'));
    }
}

/// A unified diff of two texts that differ shows at least one changed line.
pub proof fn law_difference_is_shown(a_text: Seq<char>, b_text: Seq<char>)
    requires
        a_text != b_text,
        lines_of(a_text).len() <= usize::MAX,
        lines_of(b_text).len() <= usize::MAX,
    ensures
        exists|j: int|
            0 <= j < records(shown_script(a_text, b_text)).len() && changed(
                #[trigger] records(shown_script(a_text, b_text))[j],
            ),
{
    let a = lines_of(a_text);
    let b = lines_of(b_text);
    let ends = ends_of(a_text, b_text);
    law_line_script_is_shortest(a, b);
    let ma = marked(a, ends.a_nl);
    let mb = marked(b, ends.b_nl);
    if ma == mb {
        assert(a.len() == ma.len() && b.len() == mb.len());
        assert forall|i: int| 0 <= i < a.len() implies a[i] == b[i] by {
            assert(ma[i].0 == a[i]);
            assert(mb[i].0 == b[i]);
        }
        assert(a =~= b);
        if a.len() > 0 {
            let last = a.len() - 1;
            assert(ma[last] == mb[last]);
        } else {
            lemma_no_lines(a_text);
            lemma_no_lines(b_text);
        }
        lemma_lines_determine_text(a_text, b_text);
    }
    lemma_difference_is_shown(line_script(a, b), a, b, ends);
    let recs = records(shown_script(a_text, b_text));
    let j = choose|j: int| 0 <= j < recs.len() && changed(#[trigger] recs[j]);
    assert(changed(recs[j]));
}

proof fn lemma_no_lines(text: Seq<char>)
    requires
        lines_of(text).len() == 0,
    ensures
        no_open_line(text),
{
    if text.len() > 0 {
        lemma_pieces_nonempty(text, '\n');
    }
}

/// Render a unified diff with `ctx` context lines, or `None` if the two
/// texts are byte-identical. Emits `\ No newline at end of file` markers
/// exactly like git: a line matches only where its newline does too.
pub fn unified(
    a_label: &str,
    b_label: &str,
    a_text: &str,
    b_text: &str,
    ctx: usize,
) -> (r: Option<String>)
    ensures
        match r {
            None => a_text@ == b_text@,
            Some(d) => a_text@ != b_text@ && d@ == unified_text(
                a_label@,
                b_label@,
                a_text@,
                b_text@,
                ctx,
            ),
        },
{
    if same(a_text, b_text) {
        return None;
    }
    let (a, a_ended) = split_lines(a_text);
    let (b, b_ended) = split_lines(b_text);
    let ops = diff_ops(a.as_slice(), b.as_slice());
    let ends = Ends {
        a_len: a.len(),
        b_len: b.len(),
        a_nl: a_ended || a_text.is_empty(),
        b_nl: b_ended || b_text.is_empty(),
    };
    assert(texts(a@).len() == a@.len());
    assert(texts(b@).len() == b@.len());
    assert(ends == ends_of(a_text@, b_text@));
    let mut out = render_diff_header(a_label, b_label);
    push_hunks(&mut out, &ops, a.as_slice(), b.as_slice(), &ends, ctx);
    Some(out)
}

/// Identical inputs yield one run of equal lines.
pub proof fn law_identical_inputs_are_one_run<T>(a: Seq<T>)
    requires
        a.len() <= usize::MAX,
    ensures
        line_script(a, a) == equal_run(a.len() as int),
{
    let n = a.len() as int;
    lemma_slide_to_end(a, 0);
    let empty = a.subrange(n, n);
    let whole = equal_run(n) + greedy(empty, empty) + equal_run(0);
    assert(common_tail(a, a, n, 0) == 0);
    assert(whole =~= equal_run(n));
    if n > 0 {
        assert(equal_run(n).drop_last() =~= Seq::<Op>::empty());
        assert(merged(Seq::<Op>::empty()) =~= Seq::<Op>::empty());
        assert(merged(equal_run(n)) =~= equal_run(n));
    } else {
        assert(merged(equal_run(n)) =~= equal_run(n));
    }
}

proof fn lemma_slide_to_end<T>(a: Seq<T>, x: int)
    requires
        0 <= x <= a.len(),
    ensures
        slide(a, a, x, x) == a.len(),
    decreases a.len() - x,
{
    if x < a.len() {
        lemma_slide_to_end(a, x + 1);
    }
}

} // verus!
