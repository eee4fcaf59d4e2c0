//! The greedy O((N+M)·D) search for a shortest edit script: the furthest
//! point reached on each diagonal, the trail back through those points, and
//! the proof that what comes out is shortest.

use vstd::prelude::*;

use crate::diff::Op;
use crate::script::{
    canonical, cost, deleted, distance, fits, inserted, lemma_distance_has_path,
    lemma_path_costs_distance, new_span, new_total, old_span, old_total, path, run_cost, run_fits,
    run_len, same_kind, transforms,
};
use crate::text::{same, texts};

verus! {

/// From `(x, y)`, follow the diagonal while the lines agree; where `x` ends.
pub open spec fn slide<T>(a: Seq<T>, b: Seq<T>, x: int, y: int) -> int
    decreases a.len() - x,
{
    if 0 <= x < a.len() && 0 <= y < b.len() && a[x] == b[y] {
        slide(a, b, x + 1, y + 1)
    } else {
        x
    }
}

/// Of the last step to `d` edits with `j` deletions: it is an insertion. The
/// two candidates are the furthest points with one edit less; the further one
/// wins, and a deletion wins ties.
pub open spec fn goes_down(d: int, j: int, above: int, left: int) -> bool {
    j == 0 || (j != d && left < above)
}

/// The furthest `x` that `d` edits reach when `j` of them are deletions. Such
/// points lie on the diagonal `x - y == 2 * j - d`.
pub open spec fn reach<T>(a: Seq<T>, b: Seq<T>, d: int, j: int) -> int
    decreases d,
{
    if d <= 0 {
        slide(a, b, 0, 0)
    } else {
        let above = reach(a, b, d - 1, j);
        let left = reach(a, b, d - 1, j - 1);
        let x = if goes_down(d, j, above, left) {
            above
        } else {
            left + 1
        };
        slide(a, b, x, x - (2 * j - d))
    }
}

/// `n` one-line runs of equal lines.
pub open spec fn equal_lines(n: int) -> Seq<Op> {
    Seq::new(n as nat, |i: int| Op::Equal(1))
}

/// The one-line edits on the way to `x` with `d` edits, `j` of them deletions.
pub open spec fn trail<T>(a: Seq<T>, b: Seq<T>, d: int, j: int, x: int) -> Seq<Op>
    decreases d,
{
    if d <= 0 {
        equal_lines(x)
    } else {
        let above = reach(a, b, d - 1, j);
        let left = reach(a, b, d - 1, j - 1);
        if goes_down(d, j, above, left) {
            trail(a, b, d - 1, j, above).push(Op::Ins(1)) + equal_lines(x - above)
        } else {
            trail(a, b, d - 1, j - 1, left).push(Op::Del(1)) + equal_lines(x - left - 1)
        }
    }
}

/// Append a run, growing the last one where it has the same kind.
pub open spec fn joined(out: Seq<Op>, op: Op) -> Seq<Op> {
    if out.len() == 0 {
        out.push(op)
    } else {
        match (out.last(), op) {
            (Op::Equal(n), Op::Equal(k)) => out.drop_last().push(Op::Equal((n + k) as usize)),
            (Op::Del(n), Op::Del(k)) => out.drop_last().push(Op::Del((n + k) as usize)),
            (Op::Ins(n), Op::Ins(k)) => out.drop_last().push(Op::Ins((n + k) as usize)),
            _ => out.push(op),
        }
    }
}

/// The script with neighbours of one kind joined.
pub open spec fn merged(ops: Seq<Op>) -> Seq<Op>
    decreases ops.len(),
{
    if ops.len() == 0 {
        Seq::empty()
    } else {
        joined(merged(ops.drop_last()), ops.last())
    }
}

/// How many deletions a shortest script has.
pub open spec fn deletions<T>(a: Seq<T>, b: Seq<T>) -> int {
    (distance(a, b) + a.len() - b.len()) / 2
}

/// The script that the search finds.
pub open spec fn greedy<T>(a: Seq<T>, b: Seq<T>) -> Seq<Op> {
    if a.len() == 0 && b.len() == 0 {
        Seq::empty()
    } else if a.len() == 0 {
        seq![Op::Ins(b.len() as usize)]
    } else if b.len() == 0 {
        seq![Op::Del(a.len() as usize)]
    } else {
        merged(trail(a, b, distance(a, b) as int, deletions(a, b), a.len() as int))
    }
}

/// The point reached by `d` edits, `j` of them deletions, is at or past the
/// far corner on both sides.
pub open spec fn arrived<T>(a: Seq<T>, b: Seq<T>, d: int, j: int) -> bool {
    let x = reach(a, b, d, j);
    x >= a.len() && x - (2 * j - d) >= b.len()
}

proof fn lemma_slide<T>(a: Seq<T>, b: Seq<T>, x: int, y: int)
    requires
        0 <= x,
        0 <= y,
    ensures
        x <= slide(a, b, x, y),
        x < slide(a, b, x, y) ==> slide(a, b, x, y) <= a.len() && slide(a, b, x, y) - x + y
            <= b.len(),
        forall|i: int| x <= i < slide(a, b, x, y) ==> #[trigger] a[i] == b[i - x + y],
        ({
            let e = slide(a, b, x, y);
            !(e < a.len() && e - x + y < b.len() && a[e] == b[e - x + y])
        }),
    decreases a.len() - x,
{
    if x < a.len() && y < b.len() && a[x] == b[y] {
        lemma_slide(a, b, x + 1, y + 1);
    }
}

/// Reached points have no negative coordinate.
proof fn lemma_reach_low<T>(a: Seq<T>, b: Seq<T>, d: int, j: int)
    requires
        0 <= j <= d,
    ensures
        reach(a, b, d, j) >= 0,
        reach(a, b, d, j) >= 2 * j - d,
    decreases d,
{
    if d == 0 {
        lemma_slide(a, b, 0, 0);
    } else {
        let above = reach(a, b, d - 1, j);
        let left = reach(a, b, d - 1, j - 1);
        if j < d {
            lemma_reach_low(a, b, d - 1, j);
        }
        if j > 0 {
            lemma_reach_low(a, b, d - 1, j - 1);
        }
        let x = if goes_down(d, j, above, left) {
            above
        } else {
            left + 1
        };
        lemma_slide(a, b, x, x - (2 * j - d));
    }
}

/// No path with `e` edits gets further on its diagonal than `reach` says.
proof fn lemma_reach_is_furthest<T>(a: Seq<T>, b: Seq<T>, e: int, x: int, y: int)
    requires
        0 <= x,
        0 <= y,
        path(a, b, e, x, y),
    ensures
        (e + x - y) % 2 == 0,
        0 <= (e + x - y) / 2 <= e,
        x <= reach(a, b, e, (e + x - y) / 2),
    decreases x + y,
{
    let j = (e + x - y) / 2;
    if x == 0 && y == 0 && e == 0 {
        lemma_slide(a, b, 0, 0);
    } else if x > 0 && y > 0 && a[x - 1] == b[y - 1] && path(a, b, e, x - 1, y - 1) {
        lemma_reach_is_furthest(a, b, e, x - 1, y - 1);
        if e == 0 {
            lemma_slide(a, b, 0, 0);
        } else {
            let above = reach(a, b, e - 1, j);
            let left = reach(a, b, e - 1, j - 1);
            if j < e {
                lemma_reach_low(a, b, e - 1, j);
            }
            if j > 0 {
                lemma_reach_low(a, b, e - 1, j - 1);
            }
            let start = if goes_down(e, j, above, left) {
                above
            } else {
                left + 1
            };
            lemma_slide(a, b, start, start - (2 * j - e));
        }
    } else if x > 0 && e > 0 && path(a, b, e - 1, x - 1, y) {
        lemma_reach_is_furthest(a, b, e - 1, x - 1, y);
        assert((e - 1 + (x - 1) - y) / 2 == j - 1);
        lemma_reach_step(a, b, e, j);
    } else {
        lemma_reach_is_furthest(a, b, e - 1, x, y - 1);
        lemma_reach_step(a, b, e, j);
    }
}

/// One more edit gets at least as far as either neighbour.
proof fn lemma_reach_step<T>(a: Seq<T>, b: Seq<T>, d: int, j: int)
    requires
        0 <= j <= d,
        0 < d,
    ensures
        j < d ==> reach(a, b, d, j) >= reach(a, b, d - 1, j),
        j > 0 ==> reach(a, b, d, j) >= reach(a, b, d - 1, j - 1) + 1,
{
    let above = reach(a, b, d - 1, j);
    let left = reach(a, b, d - 1, j - 1);
    if j < d {
        lemma_reach_low(a, b, d - 1, j);
    }
    if j > 0 {
        lemma_reach_low(a, b, d - 1, j - 1);
    }
    let start = if goes_down(d, j, above, left) {
        above
    } else {
        left + 1
    };
    lemma_slide(a, b, start, start - (2 * j - d));
}

/// The larger of zero and `v`.
spec fn excess(v: int) -> int {
    if v > 0 {
        v
    } else {
        0
    }
}

spec fn clamp(v: int, top: int) -> int {
    if v < top {
        v
    } else {
        top
    }
}

proof fn lemma_slide_path<T>(a: Seq<T>, b: Seq<T>, e: int, x: int, y: int)
    requires
        0 <= x,
        0 <= y,
        path(a, b, e, x, y),
    ensures
        path(a, b, e, slide(a, b, x, y), slide(a, b, x, y) - x + y),
    decreases a.len() - x,
{
    if x < a.len() && y < b.len() && a[x] == b[y] {
        assert(path(a, b, e, x + 1, y + 1));
        lemma_slide_path(a, b, e, x + 1, y + 1);
    }
}

/// A reached point, pulled back inside the grid, is on a path that saves one
/// edit for each line it was outside.
proof fn lemma_reach_clamped<T>(a: Seq<T>, b: Seq<T>, d: int, j: int)
    requires
        0 <= j <= d,
    ensures
        ({
            let x = reach(a, b, d, j);
            let y = x - (2 * j - d);
            path(
                a,
                b,
                d - excess(x - a.len()) - excess(y - b.len()),
                clamp(x, a.len() as int),
                clamp(y, b.len() as int),
            )
        }),
    decreases d,
{
    let n = a.len() as int;
    let m = b.len() as int;
    if d == 0 {
        lemma_slide_path(a, b, 0, 0, 0);
        lemma_slide(a, b, 0, 0);
    } else {
        let above = reach(a, b, d - 1, j);
        let left = reach(a, b, d - 1, j - 1);
        if goes_down(d, j, above, left) {
            lemma_reach_clamped(a, b, d - 1, j);
            lemma_reach_low(a, b, d - 1, j);
            let x = above;
            let y = x - (2 * j - d);
            let e = d - excess(x - n) - excess(y - m);
            assert(path(a, b, e, clamp(x, n), clamp(y, m)));
            lemma_slide(a, b, x, y);
            if x < n && y < m {
                lemma_slide_path(a, b, e, x, y);
            }
        } else {
            lemma_reach_clamped(a, b, d - 1, j - 1);
            lemma_reach_low(a, b, d - 1, j - 1);
            let x = left + 1;
            let y = x - (2 * j - d);
            let e = d - excess(x - n) - excess(y - m);
            assert(path(a, b, e, clamp(x, n), clamp(y, m)));
            lemma_slide(a, b, x, y);
            if x < n && y < m {
                lemma_slide_path(a, b, e, x, y);
            }
        }
    }
}

/// The search has arrived once it has made as many edits as the distance.
proof fn lemma_arrives_at_distance<T>(a: Seq<T>, b: Seq<T>)
    ensures
        0 <= deletions(a, b) <= distance(a, b),
        2 * deletions(a, b) - distance(a, b) == a.len() - b.len(),
        arrived(a, b, distance(a, b) as int, deletions(a, b)),
{
    lemma_distance_has_path(a, b, a.len(), b.len());
    lemma_reach_is_furthest(a, b, distance(a, b) as int, a.len() as int, b.len() as int);
}

/// Where it has arrived with no more edits than the distance, it is exactly at
/// the far corner.
proof fn lemma_first_arrival<T>(a: Seq<T>, b: Seq<T>, d: int, j: int)
    requires
        0 <= j <= d <= distance(a, b),
        arrived(a, b, d, j),
    ensures
        d == distance(a, b),
        j == deletions(a, b),
        reach(a, b, d, j) == a.len(),
{
    let n = a.len() as int;
    let m = b.len() as int;
    let x = reach(a, b, d, j);
    let y = x - (2 * j - d);
    lemma_reach_clamped(a, b, d, j);
    let e = d - excess(x - n) - excess(y - m);
    assert(path(a, b, e, n, m));
    lemma_path_costs_distance(a, b, e, a.len(), b.len());
    lemma_arrives_at_distance(a, b);
}

/// Appending runs adds up their spans and costs.
pub proof fn lemma_totals_concat(p: Seq<Op>, q: Seq<Op>)
    ensures
        old_total(p + q) == old_total(p) + old_total(q),
        new_total(p + q) == new_total(p) + new_total(q),
        inserted(p + q) == inserted(p) + inserted(q),
        deleted(p + q) == deleted(p) + deleted(q),
    decreases q.len(),
{
    if q.len() == 0 {
        assert(p + q =~= p);
    } else {
        assert((p + q).drop_last() =~= p + q.drop_last());
        lemma_totals_concat(p, q.drop_last());
    }
}

pub proof fn lemma_push_run<T>(ops: Seq<Op>, op: Op, a: Seq<T>, b: Seq<T>)
    ensures
        old_total(ops.push(op)) == old_total(ops) + old_span(op),
        new_total(ops.push(op)) == new_total(ops) + new_span(op),
        cost(ops.push(op)) == cost(ops) + run_cost(op),
        fits(ops, a, b) && run_fits(op, a, b, old_total(ops), new_total(ops)) ==> fits(
            ops.push(op),
            a,
            b,
        ),
{
    assert(ops.push(op).drop_last() =~= ops);
    assert(ops.push(op) =~= ops + seq![op]);
    lemma_totals_concat(ops, seq![op]);
    assert(seq![op].drop_last() =~= Seq::<Op>::empty());
}

/// Equal lines after a script that fits.
proof fn lemma_equal_lines<T>(ops: Seq<Op>, n: int, a: Seq<T>, b: Seq<T>)
    requires
        0 <= n,
        fits(ops, a, b),
        old_total(ops) + n <= a.len(),
        new_total(ops) + n <= b.len(),
        forall|i: int|
            old_total(ops) <= i < old_total(ops) + n ==> #[trigger] a[i] == b[i - old_total(ops)
                + new_total(ops)],
    ensures
        fits(ops + equal_lines(n), a, b),
        old_total(ops + equal_lines(n)) == old_total(ops) + n,
        new_total(ops + equal_lines(n)) == new_total(ops) + n,
        cost(ops + equal_lines(n)) == cost(ops),
    decreases n,
{
    if n == 0 {
        assert(ops + equal_lines(n) =~= ops);
    } else {
        let shorter = ops + equal_lines(n - 1);
        lemma_equal_lines(ops, n - 1, a, b);
        lemma_push_run(shorter, Op::Equal(1), a, b);
        assert(shorter.push(Op::Equal(1)) =~= ops + equal_lines(n));
        assert(a[old_total(ops) + n - 1] == b[old_total(ops) + n - 1 - old_total(ops) + new_total(
            ops,
        )]);
    }
}

/// The trail to a reached point inside the grid fits, ends there, and costs
/// its edits.
proof fn lemma_trail<T>(a: Seq<T>, b: Seq<T>, d: int, j: int)
    requires
        0 <= j <= d,
        reach(a, b, d, j) <= a.len(),
        reach(a, b, d, j) - (2 * j - d) <= b.len(),
    ensures
        ({
            let x = reach(a, b, d, j);
            let ops = trail(a, b, d, j, x);
            &&& fits(ops, a, b)
            &&& old_total(ops) == x
            &&& new_total(ops) == x - (2 * j - d)
            &&& cost(ops) == d
            &&& forall|i: int| 0 <= i < ops.len() ==> run_len(#[trigger] ops[i]) == 1
        }),
    decreases d,
{
    let x = reach(a, b, d, j);
    let y = x - (2 * j - d);
    if d == 0 {
        lemma_slide(a, b, 0, 0);
        lemma_equal_lines(Seq::empty(), x, a, b);
        assert(Seq::<Op>::empty() + equal_lines(x) =~= equal_lines(x));
    } else {
        let above = reach(a, b, d - 1, j);
        let left = reach(a, b, d - 1, j - 1);
        if goes_down(d, j, above, left) {
            lemma_reach_low(a, b, d - 1, j);
            lemma_slide(a, b, above, above - (2 * j - d));
            lemma_trail(a, b, d - 1, j);
            let before = trail(a, b, d - 1, j, above);
            lemma_push_run(before, Op::Ins(1), a, b);
            lemma_equal_lines(before.push(Op::Ins(1)), x - above, a, b);
        } else {
            lemma_reach_low(a, b, d - 1, j - 1);
            lemma_slide(a, b, left + 1, left + 1 - (2 * j - d));
            lemma_trail(a, b, d - 1, j - 1);
            let before = trail(a, b, d - 1, j - 1, left);
            lemma_push_run(before, Op::Del(1), a, b);
            lemma_equal_lines(before.push(Op::Del(1)), x - left - 1, a, b);
        }
    }
}

/// Joining a run to a script has the effect of appending it.
proof fn lemma_joined<T>(out: Seq<Op>, op: Op, a: Seq<T>, b: Seq<T>)
    requires
        old_total(out) + old_span(op) <= usize::MAX,
        new_total(out) + new_span(op) <= usize::MAX,
    ensures
        old_total(joined(out, op)) == old_total(out) + old_span(op),
        new_total(joined(out, op)) == new_total(out) + new_span(op),
        cost(joined(out, op)) == cost(out) + run_cost(op),
        inserted(joined(out, op)) == inserted(out.push(op)),
        deleted(joined(out, op)) == deleted(out.push(op)),
        fits(out, a, b) && run_fits(op, a, b, old_total(out), new_total(out)) ==> fits(
            joined(out, op),
            a,
            b,
        ),
        canonical(out) && run_len(op) > 0 ==> canonical(joined(out, op)),
{
    lemma_push_run(out, op, a, b);
    assert(out.push(op).drop_last() =~= out);
    assert(seq![op].drop_last() =~= Seq::<Op>::empty());
    if out.len() > 0 && same_kind(out.last(), op) {
        let head = out.drop_last();
        let last = out.last();
        assert(out =~= head.push(last));
        lemma_push_run(head, last, a, b);
        let both = joined(out, op).last();
        assert(joined(out, op) =~= head.push(both));
        lemma_push_run(head, both, a, b);
        assert(joined(out, op).drop_last() =~= head);
        if fits(out, a, b) && run_fits(op, a, b, old_total(out), new_total(out)) {
            assert(run_fits(both, a, b, old_total(head), new_total(head)));
        }
        if canonical(out) && run_len(op) > 0 {
            assert forall|i: int| 0 <= i < joined(out, op).len() implies run_len(
                #[trigger] joined(out, op)[i],
            ) > 0 by {
                if i < head.len() {
                    assert(joined(out, op)[i] == out[i]);
                }
            }
            assert forall|i: int| 0 < i < joined(out, op).len() implies !same_kind(
                joined(out, op)[i - 1],
                #[trigger] joined(out, op)[i],
            ) by {
                assert(!same_kind(out[i - 1], out[i]));
            }
        }
    } else {
        assert(joined(out, op) == out.push(op));
    }
}

/// Merging keeps what a script does and leaves it canonical.
pub proof fn lemma_merged<T>(ops: Seq<Op>, a: Seq<T>, b: Seq<T>)
    requires
        old_total(ops) <= usize::MAX,
        new_total(ops) <= usize::MAX,
    ensures
        old_total(merged(ops)) == old_total(ops),
        new_total(merged(ops)) == new_total(ops),
        inserted(merged(ops)) == inserted(ops),
        deleted(merged(ops)) == deleted(ops),
        fits(ops, a, b) ==> fits(merged(ops), a, b),
        (forall|i: int| 0 <= i < ops.len() ==> run_len(#[trigger] ops[i]) > 0) ==> canonical(
            merged(ops),
        ),
    decreases ops.len(),
{
    if ops.len() > 0 {
        let head = ops.drop_last();
        let op = ops.last();
        lemma_merged(head, a, b);
        lemma_joined(merged(head), op, a, b);
        assert(head.push(op) =~= ops);
        assert(merged(head).push(op).drop_last() =~= merged(head));
        if forall|i: int| 0 <= i < ops.len() ==> run_len(#[trigger] ops[i]) > 0 {
            assert(forall|i: int| 0 <= i < head.len() ==> head[i] == ops[i]);
            assert(run_len(ops[ops.len() - 1]) > 0);
        }
    }
}

/// The script that the search finds turns `a` into `b`, has no empty and no
/// mergeable runs, and changes as few lines as any script can.
pub proof fn lemma_greedy<T>(a: Seq<T>, b: Seq<T>)
    requires
        a.len() <= usize::MAX,
        b.len() <= usize::MAX,
    ensures
        transforms(greedy(a, b), a, b),
        canonical(greedy(a, b)),
        cost(greedy(a, b)) == distance(a, b),
{
    if a.len() == 0 && b.len() == 0 {
    } else if a.len() == 0 || b.len() == 0 {
        let op = greedy(a, b)[0];
        assert(greedy(a, b) =~= Seq::<Op>::empty().push(op));
        lemma_push_run(Seq::empty(), op, a, b);
        assert(seq![op].drop_last() =~= Seq::<Op>::empty());
    } else {
        let d = distance(a, b) as int;
        lemma_arrives_at_distance(a, b);
        lemma_first_arrival(a, b, d, deletions(a, b));
        lemma_trail(a, b, d, deletions(a, b));
        lemma_merged(trail(a, b, d, deletions(a, b), a.len() as int), a, b);
    }
}

proof fn lemma_reach_high<T>(a: Seq<T>, b: Seq<T>, d: int, j: int)
    requires
        0 <= j <= d,
    ensures
        reach(a, b, d, j) <= a.len() + j,
    decreases d,
{
    if d == 0 {
        lemma_slide(a, b, 0, 0);
    } else {
        let above = reach(a, b, d - 1, j);
        let left = reach(a, b, d - 1, j - 1);
        if j < d {
            lemma_reach_high(a, b, d - 1, j);
            lemma_reach_low(a, b, d - 1, j);
        }
        if j > 0 {
            lemma_reach_high(a, b, d - 1, j - 1);
            lemma_reach_low(a, b, d - 1, j - 1);
        }
        let x = if goes_down(d, j, above, left) {
            above
        } else {
            left + 1
        };
        lemma_slide(a, b, x, x - (2 * j - d));
    }
}

/// The rows of furthest points for every number of edits below the distance.
fn search(a: &[&str], b: &[&str]) -> (rows: Vec<Vec<u128>>)
    ensures
        rows@.len() == distance(texts(a@), texts(b@)),
        forall|c: int| 0 <= c < rows@.len() ==> (#[trigger] rows@[c])@.len() == c + 1,
        forall|c: int, i: int|
            0 <= i <= c < rows@.len() ==> #[trigger] rows@[c]@[i] == reach(
                texts(a@),
                texts(b@),
                c,
                i,
            ),
{
    let ghost sa = texts(a@);
    let ghost sb = texts(b@);
    let n: u128 = a.len() as u128;
    let m: u128 = b.len() as u128;
    let mut rows: Vec<Vec<u128>> = Vec::new();
    loop
        invariant
            sa == texts(a@),
            sb == texts(b@),
            n == sa.len(),
            m == sb.len(),
            n <= usize::MAX,
            m <= usize::MAX,
            rows@.len() <= distance(sa, sb),
            forall|c: int| 0 <= c < rows@.len() ==> (#[trigger] rows@[c])@.len() == c + 1,
            forall|c: int, i: int|
                0 <= i <= c < rows@.len() ==> #[trigger] rows@[c]@[i] == reach(sa, sb, c, i),
        decreases distance(sa, sb) - rows@.len(),
    {
        let d: usize = rows.len();
        let mut row: Vec<u128> = Vec::new();
        while row.len() <= d
            invariant
                sa == texts(a@),
                sb == texts(b@),
                n == sa.len(),
                m == sb.len(),
                n <= usize::MAX,
                m <= usize::MAX,
                d == rows@.len(),
                d <= distance(sa, sb),
                row@.len() <= d + 1,
                forall|c: int| 0 <= c < rows@.len() ==> (#[trigger] rows@[c])@.len() == c + 1,
                forall|c: int, i: int|
                    0 <= i <= c < rows@.len() ==> #[trigger] rows@[c]@[i] == reach(sa, sb, c, i),
                forall|i: int| 0 <= i < row@.len() ==> #[trigger] row@[i] == reach(sa, sb, d as int, i),
                forall|i: int| 0 <= i < row@.len() ==> !#[trigger] arrived(sa, sb, d as int, i),
            decreases d + 1 - row@.len(),
        {
            let j: usize = row.len();
            let mut x: u128 = 0;
            if d > 0 {
                let last = &rows[d - 1];
                proof {
                    if j < d {
                        lemma_reach_high(sa, sb, d - 1, j as int);
                        lemma_reach_low(sa, sb, d - 1, j as int);
                        assert(last@[j as int] == reach(sa, sb, d - 1, j as int));
                    }
                    if j > 0 {
                        lemma_reach_high(sa, sb, d - 1, j - 1);
                        lemma_reach_low(sa, sb, d - 1, j - 1);
                        assert(last@[j - 1] == reach(sa, sb, d - 1, j - 1));
                    }
                }
                x = if j == 0 || (j != d && last[j - 1] < last[j]) {
                    last[j]
                } else {
                    last[j - 1] + 1
                };
            }
            let mut y: u128 = x + d as u128 - 2 * j as u128;
            proof {
                lemma_reach_low(sa, sb, d as int, j as int);
            }
            while x < n && y < m && same(a[x as usize], b[y as usize])
                invariant
                    sa == texts(a@),
                    sb == texts(b@),
                    n == sa.len(),
                    m == sb.len(),
                    n <= usize::MAX,
                    m <= usize::MAX,
                    y == x - (2 * j - d),
                    slide(sa, sb, x as int, y as int) == reach(sa, sb, d as int, j as int),
                decreases n - x,
            {
                x = x + 1;
                y = y + 1;
            }
            row.push(x);
            if x >= n && y >= m {
                proof {
                    lemma_first_arrival(sa, sb, d as int, j as int);
                }
                return rows;
            }
        }
        proof {
            lemma_arrives_at_distance(sa, sb);
        }
        rows.push(row);
    }
}

/// Walk back from the far corner through the rows; the one-line edits come out
/// last first.
fn backtrack(n: usize, m: usize, rows: &Vec<Vec<u128>>, Ghost(a): Ghost<Seq<Seq<char>>>, Ghost(b): Ghost<Seq<Seq<char>>>) -> (rev: Vec<Op>)
    requires
        n == a.len(),
        m == b.len(),
        rows@.len() == distance(a, b),
        forall|c: int| 0 <= c < rows@.len() ==> (#[trigger] rows@[c])@.len() == c + 1,
        forall|c: int, i: int|
            0 <= i <= c < rows@.len() ==> #[trigger] rows@[c]@[i] == reach(a, b, c, i),
    ensures
        rev@.reverse() == trail(a, b, distance(a, b) as int, deletions(a, b), n as int),
{
    let mut rev: Vec<Op> = Vec::new();
    let mut d: usize = rows.len();
    proof {
        lemma_arrives_at_distance(a, b);
        lemma_first_arrival(a, b, d as int, deletions(a, b));
    }
    let mut j: usize = ((d as u128 + n as u128 - m as u128) / 2) as usize;
    let mut x: u128 = n as u128;
    let ghost whole = trail(a, b, d as int, j as int, x as int);
    assert(trail(a, b, d as int, j as int, x as int) + rev@.reverse() =~= whole);
    while d > 0
        invariant
            d <= rows@.len(),
            0 <= j <= d,
            x == reach(a, b, d as int, j as int),
            forall|c: int| 0 <= c < rows@.len() ==> (#[trigger] rows@[c])@.len() == c + 1,
            forall|c: int, i: int|
                0 <= i <= c < rows@.len() ==> #[trigger] rows@[c]@[i] == reach(a, b, c, i),
            trail(a, b, d as int, j as int, x as int) + rev@.reverse() == whole,
        decreases d,
    {
        let row = &rows[d - 1];
        let ghost before = rev@;
        proof {
            lemma_reach_step(a, b, d as int, j as int);
            if j < d {
                assert(row@[j as int] == reach(a, b, d - 1, j as int));
            }
            if j > 0 {
                assert(row@[j - 1] == reach(a, b, d - 1, j - 1));
            }
        }
        if j == 0 || (j != d && row[j - 1] < row[j]) {
            let prev: u128 = row[j];
            push_equal(&mut rev, x - prev);
            rev.push(Op::Ins(1));
            proof {
                let rest = trail(a, b, d - 1, j as int, prev as int);
                assert(rest + rev@.reverse() =~= rest.push(Op::Ins(1)) + equal_lines(x - prev)
                    + before.reverse());
            }
            x = prev;
        } else {
            let prev: u128 = row[j - 1];
            push_equal(&mut rev, x - prev - 1);
            rev.push(Op::Del(1));
            proof {
                let rest = trail(a, b, d - 1, j - 1, prev as int);
                assert(rest + rev@.reverse() =~= rest.push(Op::Del(1)) + equal_lines(x - prev - 1)
                    + before.reverse());
            }
            x = prev;
            j = j - 1;
        }
        d = d - 1;
    }
    let ghost before = rev@;
    push_equal(&mut rev, x);
    assert(rev@.reverse() =~= equal_lines(x as int) + before.reverse());
    rev
}

fn push_equal(rev: &mut Vec<Op>, n: u128)
    ensures
        final(rev)@ == old(rev)@ + equal_lines(n as int),
{
    let mut i: u128 = 0;
    assert(rev@ =~= old(rev)@ + equal_lines(0));
    while i < n
        invariant
            i <= n,
            rev@ == old(rev)@ + equal_lines(i as int),
        decreases n - i,
    {
        rev.push(Op::Equal(1));
        i = i + 1;
        assert(rev@ =~= old(rev)@ + equal_lines(i as int));
    }
}

/// Classic greedy diff with saved rows for backtracking.
pub(crate) fn myers(a: &[&str], b: &[&str]) -> (r: Vec<Op>)
    ensures
        r@ == greedy(texts(a@), texts(b@)),
{
    let n: usize = a.len();
    let m: usize = b.len();
    let mut out: Vec<Op> = Vec::new();
    if n == 0 && m == 0 {
        return out;
    }
    if n == 0 {
        out.push(Op::Ins(m));
        assert(out@ =~= seq![Op::Ins(m)]);
        return out;
    }
    if m == 0 {
        out.push(Op::Del(n));
        assert(out@ =~= seq![Op::Del(n)]);
        return out;
    }
    let ghost sa = texts(a@);
    let ghost sb = texts(b@);
    let rows = search(a, b);
    let rev = backtrack(n, m, &rows, Ghost(sa), Ghost(sb));
    let mut ops: Vec<Op> = Vec::new();
    let mut i: usize = rev.len();
    while i > 0
        invariant
            i <= rev@.len(),
            ops@ == rev@.reverse().take(rev@.len() - i),
        decreases i,
    {
        i = i - 1;
        ops.push(rev[i]);
        assert(ops@ =~= rev@.reverse().take(rev@.len() - i));
    }
    proof {
        assert(rev@.reverse().take(rev@.len() as int) =~= rev@.reverse());
        let d = distance(sa, sb) as int;
        lemma_arrives_at_distance(sa, sb);
        lemma_first_arrival(sa, sb, d, deletions(sa, sb));
        lemma_trail(sa, sb, d, deletions(sa, sb));
    }
    merge(ops)
}

/// Merge adjacent runs of the same kind.
pub(crate) fn merge(ops: Vec<Op>) -> (r: Vec<Op>)
    requires
        old_total(ops@) <= usize::MAX,
        new_total(ops@) <= usize::MAX,
    ensures
        r@ == merged(ops@),
{
    let mut out: Vec<Op> = Vec::new();
    let mut i: usize = 0;
    assert(ops@.take(0) =~= Seq::<Op>::empty());
    while i < ops.len()
        invariant
            i <= ops@.len(),
            old_total(ops@) <= usize::MAX,
            new_total(ops@) <= usize::MAX,
            out@ == merged(ops@.take(i as int)),
        decreases ops@.len() - i,
    {
        let op = ops[i];
        proof {
            let done = ops@.take(i as int);
            assert(ops@ =~= done + ops@.skip(i as int));
            assert(ops@.take(i + 1).drop_last() =~= done);
            assert(ops@ =~= ops@.take(i + 1) + ops@.skip(i + 1));
            lemma_totals_concat(ops@.take(i + 1), ops@.skip(i + 1));
            lemma_merged(done, Seq::<int>::empty(), Seq::<int>::empty());
        }
        match out.pop() {
            None => {
                assert(out@.push(op) =~= joined(merged(ops@.take(i as int)), op));
                out.push(op);
            },
            Some(last) => {
                let ghost whole = out@.push(last);
                assert(whole =~= merged(ops@.take(i as int)));
                assert(whole.drop_last() =~= out@);
                match (last, op) {
                    (Op::Equal(n), Op::Equal(k)) => {
                        out.push(Op::Equal(n + k));
                    },
                    (Op::Del(n), Op::Del(k)) => {
                        out.push(Op::Del(n + k));
                    },
                    (Op::Ins(n), Op::Ins(k)) => {
                        out.push(Op::Ins(n + k));
                    },
                    _ => {
                        out.push(last);
                        out.push(op);
                    },
                }
            },
        }
        i = i + 1;
    }
    assert(ops@.take(ops@.len() as int) =~= ops@);
    out
}

} // verus!
