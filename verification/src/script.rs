//! Edit scripts as mathematical objects: what a script does to a sequence,
//! what it costs, and the distance that no script can beat.

use vstd::prelude::*;

use crate::diff::Op;

verus! {

/// How many lines of the old side a run covers.
pub open spec fn old_span(op: Op) -> nat {
    match op {
        Op::Equal(n) => n as nat,
        Op::Del(n) => n as nat,
        Op::Ins(_) => 0,
    }
}

/// How many lines of the new side a run covers.
pub open spec fn new_span(op: Op) -> nat {
    match op {
        Op::Equal(n) => n as nat,
        Op::Del(_) => 0,
        Op::Ins(n) => n as nat,
    }
}

/// Lines of the old side that a script covers.
pub open spec fn old_total(ops: Seq<Op>) -> nat
    decreases ops.len(),
{
    if ops.len() == 0 {
        0
    } else {
        old_total(ops.drop_last()) + old_span(ops.last())
    }
}

/// Lines of the new side that a script covers.
pub open spec fn new_total(ops: Seq<Op>) -> nat
    decreases ops.len(),
{
    if ops.len() == 0 {
        0
    } else {
        new_total(ops.drop_last()) + new_span(ops.last())
    }
}

/// Lines that a script inserts.
pub open spec fn inserted(ops: Seq<Op>) -> nat
    decreases ops.len(),
{
    if ops.len() == 0 {
        0
    } else {
        inserted(ops.drop_last()) + match ops.last() {
            Op::Ins(n) => n as nat,
            _ => 0,
        }
    }
}

/// Lines that a script deletes.
pub open spec fn deleted(ops: Seq<Op>) -> nat
    decreases ops.len(),
{
    if ops.len() == 0 {
        0
    } else {
        deleted(ops.drop_last()) + match ops.last() {
            Op::Del(n) => n as nat,
            _ => 0,
        }
    }
}

/// Lines that a script changes, on either side.
pub open spec fn cost(ops: Seq<Op>) -> nat {
    inserted(ops) + deleted(ops)
}

/// Lines that one run changes.
pub open spec fn run_cost(op: Op) -> nat {
    match op {
        Op::Equal(_) => 0,
        Op::Del(n) => n as nat,
        Op::Ins(n) => n as nat,
    }
}

/// A script inserts no more lines than the new side has, and deletes no more
/// than the old side has.
pub proof fn lemma_script_bounds(ops: Seq<Op>)
    ensures
        inserted(ops) <= new_total(ops),
        deleted(ops) <= old_total(ops),
    decreases ops.len(),
{
    if ops.len() > 0 {
        lemma_script_bounds(ops.drop_last());
    }
}

/// The run `op`, started at line `x` of `a` and line `y` of `b`, stays inside
/// both sides, and an `Equal` run covers lines that are the same.
pub open spec fn run_fits<T>(op: Op, a: Seq<T>, b: Seq<T>, x: nat, y: nat) -> bool {
    &&& x + old_span(op) <= a.len()
    &&& y + new_span(op) <= b.len()
    &&& op matches Op::Equal(n) ==> forall|i: int|
        x <= i < x + n ==> #[trigger] a[i] == b[i - x + y]
}

/// Every run of the script fits where it falls.
pub open spec fn fits<T>(ops: Seq<Op>, a: Seq<T>, b: Seq<T>) -> bool
    decreases ops.len(),
{
    ops.len() == 0 || {
        &&& fits(ops.drop_last(), a, b)
        &&& run_fits(ops.last(), a, b, old_total(ops.drop_last()), new_total(ops.drop_last()))
    }
}

/// The script turns `a` into `b`: every run fits, and both sides are used up.
pub open spec fn transforms<T>(ops: Seq<Op>, a: Seq<T>, b: Seq<T>) -> bool {
    &&& fits(ops, a, b)
    &&& old_total(ops) == a.len()
    &&& new_total(ops) == b.len()
}

/// What comes out when the script is applied to `a`, with the inserted lines
/// taken from `b`.
pub open spec fn patch<T>(ops: Seq<Op>, a: Seq<T>, b: Seq<T>) -> Seq<T>
    decreases ops.len(),
{
    if ops.len() == 0 {
        Seq::empty()
    } else {
        let done = ops.drop_last();
        let x = old_total(done) as int;
        let y = new_total(done) as int;
        patch(done, a, b) + match ops.last() {
            Op::Equal(n) => a.subrange(x, x + n),
            Op::Del(_) => Seq::empty(),
            Op::Ins(n) => b.subrange(y, y + n),
        }
    }
}

/// Two runs of the same kind.
pub open spec fn same_kind(p: Op, q: Op) -> bool {
    match (p, q) {
        (Op::Equal(_), Op::Equal(_)) => true,
        (Op::Del(_), Op::Del(_)) => true,
        (Op::Ins(_), Op::Ins(_)) => true,
        _ => false,
    }
}

pub open spec fn run_len(op: Op) -> nat {
    match op {
        Op::Equal(n) => n as nat,
        Op::Del(n) => n as nat,
        Op::Ins(n) => n as nat,
    }
}

/// No run is empty, and no two neighbours have the same kind.
pub open spec fn canonical(ops: Seq<Op>) -> bool {
    &&& forall|i: int| 0 <= i < ops.len() ==> run_len(#[trigger] ops[i]) > 0
    &&& forall|i: int| 0 < i < ops.len() ==> !same_kind(ops[i - 1], #[trigger] ops[i])
}

/// The least number of inserted and deleted lines between the first `x` lines
/// of `a` and the first `y` lines of `b`.
pub open spec fn distance_to<T>(a: Seq<T>, b: Seq<T>, x: nat, y: nat) -> nat
    decreases x + y,
{
    if x == 0 {
        y
    } else if y == 0 {
        x
    } else if a[x - 1] == b[y - 1] {
        distance_to(a, b, (x - 1) as nat, (y - 1) as nat)
    } else {
        let up = distance_to(a, b, x, (y - 1) as nat);
        let left = distance_to(a, b, (x - 1) as nat, y);
        1 + if up < left {
            up
        } else {
            left
        }
    }
}

/// The edit distance of two sequences, counting insertions and deletions.
pub open spec fn distance<T>(a: Seq<T>, b: Seq<T>) -> nat {
    distance_to(a, b, a.len(), b.len())
}

/// The point `(x, y)` of the edit grid is reached from the origin by a path
/// with exactly `e` horizontal or vertical steps.
pub open spec fn path<T>(a: Seq<T>, b: Seq<T>, e: int, x: int, y: int) -> bool
    decreases x + y,
    when 0 <= x && 0 <= y
{
    &&& 0 <= e
    &&& x <= a.len()
    &&& y <= b.len()
    &&& {
        ||| x == 0 && y == 0 && e == 0
        ||| x > 0 && y > 0 && a[x - 1] == b[y - 1] && path(a, b, e, x - 1, y - 1)
        ||| x > 0 && e > 0 && path(a, b, e - 1, x - 1, y)
        ||| y > 0 && e > 0 && path(a, b, e - 1, x, y - 1)
    }
}

/// Taking one line off either end changes the distance by at most one.
proof fn lemma_distance_steps<T>(a: Seq<T>, b: Seq<T>, x: nat, y: nat)
    ensures
        y > 0 ==> distance_to(a, b, x, (y - 1) as nat) <= distance_to(a, b, x, y) + 1,
        x > 0 ==> distance_to(a, b, (x - 1) as nat, y) <= distance_to(a, b, x, y) + 1,
        y > 0 ==> distance_to(a, b, x, y) <= distance_to(a, b, x, (y - 1) as nat) + 1,
        x > 0 ==> distance_to(a, b, x, y) <= distance_to(a, b, (x - 1) as nat, y) + 1,
    decreases x + y,
{
    if x > 0 && y > 0 {
        lemma_distance_steps(a, b, (x - 1) as nat, y);
        lemma_distance_steps(a, b, x, (y - 1) as nat);
        lemma_distance_steps(a, b, (x - 1) as nat, (y - 1) as nat);
    } else if x > 0 {
        lemma_distance_steps(a, b, (x - 1) as nat, y);
    } else if y > 0 {
        lemma_distance_steps(a, b, x, (y - 1) as nat);
    }
}

/// The distance is at least the difference of the two lengths.
proof fn lemma_distance_gap<T>(a: Seq<T>, b: Seq<T>, x: nat, y: nat)
    ensures
        distance_to(a, b, x, y) >= x - y,
        distance_to(a, b, x, y) >= y - x,
    decreases x + y,
{
    if x > 0 && y > 0 {
        lemma_distance_gap(a, b, (x - 1) as nat, y);
        lemma_distance_gap(a, b, x, (y - 1) as nat);
        lemma_distance_gap(a, b, (x - 1) as nat, (y - 1) as nat);
    }
}

/// No path has fewer steps than the distance.
pub proof fn lemma_path_costs_distance<T>(a: Seq<T>, b: Seq<T>, e: int, x: nat, y: nat)
    requires
        path(a, b, e, x as int, y as int),
    ensures
        distance_to(a, b, x, y) <= e,
    decreases x + y,
{
    if x == 0 && y == 0 {
    } else if x > 0 && y > 0 && a[x - 1] == b[y - 1] && path(a, b, e, x - 1, y - 1) {
        lemma_path_costs_distance(a, b, e, (x - 1) as nat, (y - 1) as nat);
    } else if x > 0 && e > 0 && path(a, b, e - 1, x - 1, y as int) {
        lemma_path_costs_distance(a, b, e - 1, (x - 1) as nat, y);
        lemma_distance_steps(a, b, x, y);
    } else {
        lemma_path_costs_distance(a, b, e - 1, x, (y - 1) as nat);
        lemma_distance_steps(a, b, x, y);
    }
}

/// Some path has exactly as many steps as the distance.
pub proof fn lemma_distance_has_path<T>(a: Seq<T>, b: Seq<T>, x: nat, y: nat)
    requires
        x <= a.len(),
        y <= b.len(),
    ensures
        path(a, b, distance_to(a, b, x, y) as int, x as int, y as int),
    decreases x + y,
{
    if x == 0 {
        if y > 0 {
            lemma_distance_has_path(a, b, x, (y - 1) as nat);
        }
    } else if y == 0 {
        lemma_distance_has_path(a, b, (x - 1) as nat, y);
    } else if a[x - 1] == b[y - 1] {
        lemma_distance_has_path(a, b, (x - 1) as nat, (y - 1) as nat);
    } else {
        lemma_distance_has_path(a, b, x, (y - 1) as nat);
        lemma_distance_has_path(a, b, (x - 1) as nat, y);
    }
}

/// A common prefix of `p` lines does not count: the distance is that of what
/// follows it.
pub proof fn lemma_distance_skips_prefix<T>(a: Seq<T>, b: Seq<T>, p: nat, x: nat, y: nat)
    requires
        p + x <= a.len(),
        p + y <= b.len(),
        forall|i: int| 0 <= i < p ==> a[i] == b[i],
    ensures
        distance_to(a, b, p + x, p + y) == distance_to(
            a.skip(p as int),
            b.skip(p as int),
            x,
            y,
        ),
    decreases x + y,
{
    if x == 0 {
        lemma_distance_gap(a, b, p + x, p + y);
        lemma_prefix_path(a, b, p, y);
        lemma_path_costs_distance(a, b, y as int, p + x, p + y);
    } else if y == 0 {
        lemma_distance_gap(a, b, p + x, p + y);
        lemma_prefix_path_left(a, b, p, x);
        lemma_path_costs_distance(a, b, x as int, p + x, p + y);
    } else {
        assert(a.skip(p as int)[x - 1] == a[p + x - 1]);
        assert(b.skip(p as int)[y - 1] == b[p + y - 1]);
        lemma_distance_skips_prefix(a, b, p, (x - 1) as nat, (y - 1) as nat);
        lemma_distance_skips_prefix(a, b, p, (x - 1) as nat, y);
        lemma_distance_skips_prefix(a, b, p, x, (y - 1) as nat);
    }
}

proof fn lemma_prefix_path<T>(a: Seq<T>, b: Seq<T>, p: nat, y: nat)
    requires
        p <= a.len(),
        p + y <= b.len(),
        forall|i: int| 0 <= i < p ==> a[i] == b[i],
    ensures
        path(a, b, y as int, p as int, (p + y) as int),
    decreases p + y,
{
    if y > 0 {
        lemma_prefix_path(a, b, p, (y - 1) as nat);
    } else if p > 0 {
        lemma_prefix_path(a, b, (p - 1) as nat, y);
        assert(a[p - 1] == b[p - 1]);
    }
}

proof fn lemma_prefix_path_left<T>(a: Seq<T>, b: Seq<T>, p: nat, x: nat)
    requires
        p <= b.len(),
        p + x <= a.len(),
        forall|i: int| 0 <= i < p ==> a[i] == b[i],
    ensures
        path(a, b, x as int, (p + x) as int, p as int),
    decreases p + x,
{
    if x > 0 {
        lemma_prefix_path_left(a, b, p, (x - 1) as nat);
    } else if p > 0 {
        lemma_prefix_path_left(a, b, (p - 1) as nat, x);
        assert(a[p - 1] == b[p - 1]);
    }
}

/// A common suffix of `s` lines does not count either.
pub proof fn lemma_distance_skips_suffix<T>(a: Seq<T>, b: Seq<T>, s: nat)
    requires
        s <= a.len(),
        s <= b.len(),
        forall|i: int|
            a.len() - s <= i < a.len() ==> #[trigger] a[i] == b[i - a.len() + b.len()],
    ensures
        distance(a, b) == distance_to(a, b, (a.len() - s) as nat, (b.len() - s) as nat),
    decreases s,
{
    if s > 0 {
        lemma_distance_skips_suffix(a, b, (s - 1) as nat);
        let x = (a.len() - s + 1) as nat;
        let y = (b.len() - s + 1) as nat;
        assert(a[x - 1] == b[y - 1]);
    }
}

/// The distance only looks at the first `x` and `y` lines.
pub proof fn lemma_distance_of_prefixes<T>(a: Seq<T>, b: Seq<T>, n: int, m: int, x: nat, y: nat)
    requires
        x <= n <= a.len(),
        y <= m <= b.len(),
    ensures
        distance_to(a, b, x, y) == distance_to(a.take(n), b.take(m), x, y),
    decreases x + y,
{
    if x > 0 && y > 0 {
        assert(a.take(n)[x - 1] == a[x - 1]);
        assert(b.take(m)[y - 1] == b[y - 1]);
        lemma_distance_of_prefixes(a, b, n, m, (x - 1) as nat, (y - 1) as nat);
        lemma_distance_of_prefixes(a, b, n, m, (x - 1) as nat, y);
        lemma_distance_of_prefixes(a, b, n, m, x, (y - 1) as nat);
    }
}

proof fn lemma_path_extend<T>(a: Seq<T>, b: Seq<T>, e: int, x: int, y: int, op: Op, n: nat)
    requires
        0 <= x,
        0 <= y,
        path(a, b, e, x, y),
        n <= run_len(op),
        run_fits(op, a, b, x as nat, y as nat),
    ensures
        match op {
            Op::Equal(_) => path(a, b, e, x + n, y + n),
            Op::Del(_) => path(a, b, e + n, x + n, y),
            Op::Ins(_) => path(a, b, e + n, x, y + n),
        },
    decreases n,
{
    if n > 0 {
        lemma_path_extend(a, b, e, x, y, op, (n - 1) as nat);
        if op is Equal {
            assert(a[x + (n - 1)] == b[x + (n - 1) - x + y]);
        }
    }
}

/// A script that fits traces a path with as many steps as its cost.
pub proof fn lemma_script_is_path<T>(ops: Seq<Op>, a: Seq<T>, b: Seq<T>)
    requires
        fits(ops, a, b),
    ensures
        path(a, b, cost(ops) as int, old_total(ops) as int, new_total(ops) as int),
    decreases ops.len(),
{
    if ops.len() > 0 {
        let done = ops.drop_last();
        lemma_script_is_path(done, a, b);
        lemma_path_extend(
            a,
            b,
            cost(done) as int,
            old_total(done) as int,
            new_total(done) as int,
            ops.last(),
            run_len(ops.last()),
        );
    }
}

/// No script that turns `a` into `b` changes fewer lines than the distance.
pub proof fn law_no_script_beats_distance<T>(ops: Seq<Op>, a: Seq<T>, b: Seq<T>)
    requires
        transforms(ops, a, b),
    ensures
        cost(ops) >= distance(a, b),
{
    lemma_script_is_path(ops, a, b);
    lemma_path_costs_distance(a, b, cost(ops) as int, a.len(), b.len());
}

proof fn lemma_patch_prefix<T>(ops: Seq<Op>, a: Seq<T>, b: Seq<T>)
    requires
        fits(ops, a, b),
    ensures
        new_total(ops) <= b.len(),
        patch(ops, a, b) == b.take(new_total(ops) as int),
    decreases ops.len(),
{
    if ops.len() == 0 {
        assert(b.take(0) =~= Seq::empty());
    } else {
        let done = ops.drop_last();
        lemma_patch_prefix(done, a, b);
        let x = old_total(done) as int;
        let y = new_total(done) as int;
        if let Op::Equal(n) = ops.last() {
            let kept = a.subrange(x, x + n);
            assert forall|i: int| 0 <= i < n implies #[trigger] kept[i] == b[y + i] by {
                assert(a[x + i] == b[x + i - x + y]);
            }
            assert(kept =~= b.subrange(y, y + n));
        }
        assert(patch(ops, a, b) =~= b.take(new_total(ops) as int));
    }
}

/// Applying a script that turns `a` into `b` to `a` gives `b`.
pub proof fn law_patch_gives_new_side<T>(ops: Seq<Op>, a: Seq<T>, b: Seq<T>)
    requires
        transforms(ops, a, b),
    ensures
        patch(ops, a, b) == b,
{
    lemma_patch_prefix(ops, a, b);
    assert(b.take(b.len() as int) =~= b);
}

} // verus!
