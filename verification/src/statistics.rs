//! What change statistics say: how many files and lines differ, that the two
//! directions of a comparison mirror each other, and that they are empty only
//! where nothing differs.

use vstd::prelude::*;

use crate::diff::{binary, law_line_script_is_shortest, line_script};
use crate::listing::distinct_paths;
use crate::object::{fetched, no_changes, Kind, Stats};
use crate::script::{deleted, distance_to, inserted, new_total, old_total};
use crate::snapshot::{
    blob_changes, blob_lines, changed_lines, entry_for, file_stats, last_index, lemma_last_index,
    stats_of_new, stats_of_old, FileEntryView,
};
use crate::text::{lines_of, lossy_text};

verus! {

/// The sum of the first `n` values.
pub open spec fn total(n: nat, f: spec_fn(int) -> nat) -> nat
    decreases n,
{
    if n == 0 {
        0
    } else {
        total((n - 1) as nat, f) + f(n - 1)
    }
}

/// A count that stops at the largest `u64`.
pub open spec fn capped_count(n: nat) -> u64 {
    if n > u64::MAX {
        u64::MAX
    } else {
        n as u64
    }
}

/// The number of lines of a blob that can be read.
pub open spec fn line_total(objects: Map<Seq<char>, Seq<u8>>, id: Seq<char>) -> nat {
    blob_lines(objects, id)->Ok_0
}

/// Lines added between the two versions of a path that both sides have.
pub open spec fn lines_in(
    objects: Map<Seq<char>, Seq<u8>>,
    p: FileEntryView,
    e: FileEntryView,
) -> nat {
    if p.id == e.id {
        0
    } else {
        blob_changes(objects, p.id, e.id)->Ok_0.0
    }
}

/// Lines removed between the two versions of a path that both sides have.
pub open spec fn lines_out(
    objects: Map<Seq<char>, Seq<u8>>,
    p: FileEntryView,
    e: FileEntryView,
) -> nat {
    if p.id == e.id {
        0
    } else {
        blob_changes(objects, p.id, e.id)->Ok_0.1
    }
}

/// What a file of `a` counts for if `b` lacks it.
pub open spec fn unmatched_at(
    a: Seq<FileEntryView>,
    b: Seq<FileEntryView>,
    f: spec_fn(FileEntryView) -> nat,
) -> spec_fn(int) -> nat {
    |i: int|
        if last_index(b, a[i].rel) >= 0 {
            0
        } else {
            f(a[i])
        }
}

/// What a file of `a` counts for, together with its counterpart, if `b` has it
/// as well.
pub open spec fn matched_at(
    a: Seq<FileEntryView>,
    b: Seq<FileEntryView>,
    h: spec_fn(FileEntryView, FileEntryView) -> nat,
) -> spec_fn(int) -> nat {
    |i: int|
        match entry_for(b, a[i].rel) {
            Some(p) => h(p, a[i]),
            None => 0,
        }
}

/// Sum of what the files of `a` count for that `b` lacks.
pub open spec fn unmatched(
    a: Seq<FileEntryView>,
    b: Seq<FileEntryView>,
    f: spec_fn(FileEntryView) -> nat,
) -> nat {
    total(a.len(), unmatched_at(a, b, f))
}

/// Sum of what the files of `a` count for that `b` has as well, each together
/// with its counterpart.
pub open spec fn matched(
    a: Seq<FileEntryView>,
    b: Seq<FileEntryView>,
    h: spec_fn(FileEntryView, FileEntryView) -> nat,
) -> nat {
    total(a.len(), matched_at(a, b, h))
}

/// Each file counts once.
pub open spec fn each_once() -> spec_fn(FileEntryView) -> nat {
    |e: FileEntryView| 1
}

/// Each file counts for its lines.
pub open spec fn by_lines(objects: Map<Seq<char>, Seq<u8>>) -> spec_fn(FileEntryView) -> nat {
    |e: FileEntryView| line_total(objects, e.id)
}

/// A path counts once if its versions differ.
pub open spec fn by_difference() -> spec_fn(FileEntryView, FileEntryView) -> nat {
    |p: FileEntryView, e: FileEntryView| differs(p, e)
}

/// A path counts for the lines added between its versions.
pub open spec fn by_lines_in(objects: Map<Seq<char>, Seq<u8>>) -> spec_fn(
    FileEntryView,
    FileEntryView,
) -> nat {
    |p: FileEntryView, e: FileEntryView| lines_in(objects, p, e)
}

/// A path counts for the lines removed between its versions.
pub open spec fn by_lines_out(objects: Map<Seq<char>, Seq<u8>>) -> spec_fn(
    FileEntryView,
    FileEntryView,
) -> nat {
    |p: FileEntryView, e: FileEntryView| lines_out(objects, p, e)
}

/// One if the two versions of a path differ.
pub open spec fn differs(p: FileEntryView, e: FileEntryView) -> nat {
    if p.id != e.id || p.executable != e.executable {
        1
    } else {
        0
    }
}

/// The statistics of two lists of files, each without repeated paths.
pub open spec fn summary(
    objects: Map<Seq<char>, Seq<u8>>,
    old: Seq<FileEntryView>,
    new: Seq<FileEntryView>,
) -> Stats {
    Stats {
        files_added: unmatched(new, old, each_once()) as u64,
        files_modified: matched(new, old, by_difference()) as u64,
        files_deleted: unmatched(old, new, each_once()) as u64,
        lines_added: capped_count(
            unmatched(new, old, by_lines(objects)) + matched(new, old, by_lines_in(objects)),
        ),
        lines_removed: capped_count(
            unmatched(old, new, by_lines(objects)) + matched(new, old, by_lines_out(objects)),
        ),
    }
}

proof fn lemma_total_eq(n: nat, f: spec_fn(int) -> nat, g: spec_fn(int) -> nat)
    requires
        forall|i: int| 0 <= i < n ==> #[trigger] f(i) == g(i),
    ensures
        total(n, f) == total(n, g),
    decreases n,
{
    if n > 0 {
        lemma_total_eq((n - 1) as nat, f, g);
    }
}

proof fn lemma_total_at_most(n: nat, f: spec_fn(int) -> nat)
    requires
        forall|i: int| 0 <= i < n ==> #[trigger] f(i) <= 1,
    ensures
        total(n, f) <= n,
    decreases n,
{
    if n > 0 {
        lemma_total_at_most((n - 1) as nat, f);
    }
}

proof fn lemma_total_zero(n: nat, f: spec_fn(int) -> nat)
    ensures
        total(n, f) == 0 <==> forall|i: int| 0 <= i < n ==> #[trigger] f(i) == 0,
    decreases n,
{
    if n > 0 {
        lemma_total_zero((n - 1) as nat, f);
    }
}

/// Two sums that differ in one value alone.
proof fn lemma_total_step(n: nat, f: spec_fn(int) -> nat, g: spec_fn(int) -> nat, k: int, c: nat)
    requires
        0 <= k < n,
        forall|i: int| 0 <= i < n && i != k ==> #[trigger] f(i) == g(i),
        g(k) == f(k) + c,
    ensures
        total(n, g) == total(n, f) + c,
    decreases n,
{
    if k == n - 1 {
        lemma_total_eq((n - 1) as nat, f, g);
    } else {
        lemma_total_step((n - 1) as nat, f, g, k, c);
    }
}

/// Where a path stands in a list with one more file.
proof fn lemma_entry_push(list: Seq<FileEntryView>, e: FileEntryView, rel: Seq<char>)
    ensures
        entry_for(list.push(e), rel) == (if e.rel == rel {
            Some(e)
        } else {
            entry_for(list, rel)
        }),
        last_index(list.push(e), rel) >= 0 <==> e.rel == rel || last_index(list, rel) >= 0,
{
    assert(list.push(e).drop_last() =~= list);
    lemma_last_index(list, rel);
}

/// Both sides of a match count the same, whichever side is walked.
proof fn lemma_matched_swap(
    a: Seq<FileEntryView>,
    b: Seq<FileEntryView>,
    h: spec_fn(FileEntryView, FileEntryView) -> nat,
    g: spec_fn(FileEntryView, FileEntryView) -> nat,
)
    requires
        distinct_paths(a),
        distinct_paths(b),
        forall|p: FileEntryView, e: FileEntryView|
            a.contains(e) && b.contains(p) ==> #[trigger] h(p, e) == g(e, p),
    ensures
        matched(a, b, h) == matched(b, a, g),
    decreases a.len(),
{
    if a.len() == 0 {
        let f = matched_at(b, a, g);
        assert forall|i: int| 0 <= i < b.len() implies #[trigger] f(i) == 0 by {
            lemma_last_index(a, b[i].rel);
        }
        lemma_total_zero(b.len(), f);
    } else {
        let head = a.drop_last();
        let e = a.last();
        let n = (a.len() - 1) as nat;
        assert(a =~= head.push(e));
        assert(distinct_paths(head)) by {
            assert forall|i: int, j: int|
                0 <= i < head.len() && 0 <= j < head.len() && (#[trigger] head[i]).rel == (
                #[trigger] head[j]).rel implies i == j by {
                assert(a[i] == head[i] && a[j] == head[j]);
            }
        }
        assert forall|p: FileEntryView, x: FileEntryView| head.contains(x) && b.contains(
            p,
        ) implies #[trigger] h(p, x) == g(x, p) by {
            let i = choose|i: int| 0 <= i < head.len() && head[i] == x;
            assert(a[i] == x);
        }
        lemma_matched_swap(head, b, h, g);
        let fa = matched_at(a, b, h);
        let fh = matched_at(head, b, h);
        lemma_total_eq(n, fa, fh);
        let before = matched_at(b, head, g);
        let after = matched_at(b, a, g);
        lemma_last_index(b, e.rel);
        let k = last_index(b, e.rel);
        assert forall|i: int| 0 <= i < b.len() && i != k implies #[trigger] before(i) == after(i) by {
            lemma_entry_push(head, e, b[i].rel);
            if b[i].rel == e.rel {
                if k >= 0 {
                    assert(b[i].rel == b[k].rel);
                }
            }
        }
        if k >= 0 {
            lemma_entry_push(head, e, b[k].rel);
            lemma_last_index(head, e.rel);
            let q = last_index(head, e.rel);
            if q >= 0 {
                assert(a[q].rel == a[a.len() - 1].rel);
            }
            assert(before(k) == 0);
            assert(after(k) == g(e, b[k]));
            assert(fa(n as int) == h(b[k], e));
            assert(a.contains(e)) by {
                assert(a[a.len() - 1] == e);
            }
            assert(b.contains(b[k]));
            lemma_total_step(b.len(), before, after, k, g(e, b[k]));
        } else {
            lemma_total_eq(b.len(), before, after);
        }
    }
}

proof fn lemma_stats_of_new(
    objects: Map<Seq<char>, Seq<u8>>,
    old: Seq<FileEntryView>,
    new: Seq<FileEntryView>,
    n: nat,
)
    requires
        distinct_paths(new),
        n <= new.len() <= u64::MAX,
        stats_of_new(objects, old, new, n) is Ok,
    ensures
        stats_of_new(objects, old, new, n)->Ok_0 == (Stats {
            files_added: total(n, unmatched_at(new, old, each_once())) as u64,
            files_modified: total(n, matched_at(new, old, by_difference())) as u64,
            files_deleted: 0,
            lines_added: capped_count(
                total(n, unmatched_at(new, old, by_lines(objects))) + total(
                    n,
                    matched_at(new, old, by_lines_in(objects)),
                ),
            ),
            lines_removed: capped_count(total(n, matched_at(new, old, by_lines_out(objects)))),
        }),
    decreases n,
{
    if n > 0 {
        let m = (n - 1) as nat;
        let e = new[n - 1];
        lemma_stats_of_new(objects, old, new, m);
        lemma_last_index(new, e.rel);
        assert(new[last_index(new, e.rel)].rel == new[n - 1].rel);
        assert(last_index(new, e.rel) == n - 1);
        lemma_last_index(old, e.rel);
        lemma_total_at_most(m, unmatched_at(new, old, each_once()));
        lemma_total_at_most(m, matched_at(new, old, by_difference()));
    }
}

proof fn lemma_stats_of_old(
    objects: Map<Seq<char>, Seq<u8>>,
    old: Seq<FileEntryView>,
    new: Seq<FileEntryView>,
    n: nat,
)
    requires
        distinct_paths(old),
        distinct_paths(new),
        n <= old.len() <= u64::MAX,
        new.len() <= u64::MAX,
        stats_of_old(objects, old, new, n) is Ok,
    ensures
        stats_of_old(objects, old, new, n)->Ok_0 == (Stats {
            files_deleted: total(n, unmatched_at(old, new, each_once())) as u64,
            lines_removed: capped_count(
                total(n, unmatched_at(old, new, by_lines(objects))) + matched(
                    new,
                    old,
                    by_lines_out(objects),
                ),
            ),
            ..summary(objects, old, new)
        }),
    decreases n,
{
    if n == 0 {
        lemma_stats_of_new(objects, old, new, new.len());
    } else {
        let m = (n - 1) as nat;
        let e = old[n - 1];
        lemma_stats_of_old(objects, old, new, m);
        lemma_last_index(old, e.rel);
        assert(old[last_index(old, e.rel)].rel == old[n - 1].rel);
        assert(last_index(old, e.rel) == n - 1);
        lemma_total_at_most(m, unmatched_at(old, new, each_once()));
    }
}

/// Statistics are sums over the paths: each path that one side alone has, and
/// each that differs between the sides, counts once and for its lines.
pub proof fn law_stats_are_sums(
    objects: Map<Seq<char>, Seq<u8>>,
    old: Seq<FileEntryView>,
    new: Seq<FileEntryView>,
)
    requires
        distinct_paths(old),
        distinct_paths(new),
        old.len() <= u64::MAX,
        new.len() <= u64::MAX,
        file_stats(objects, old, new) is Ok,
    ensures
        file_stats(objects, old, new)->Ok_0 == summary(objects, old, new),
{
    lemma_stats_of_old(objects, old, new, old.len());
}

/// Going back takes as many changes as going there.
proof fn lemma_distance_mirrored<T>(a: Seq<T>, b: Seq<T>, x: nat, y: nat)
    ensures
        distance_to(a, b, x, y) == distance_to(b, a, y, x),
    decreases x + y,
{
    if x > 0 && y > 0 {
        if a[x - 1] == b[y - 1] {
            lemma_distance_mirrored(a, b, (x - 1) as nat, (y - 1) as nat);
        } else {
            lemma_distance_mirrored(a, b, x, (y - 1) as nat);
            lemma_distance_mirrored(a, b, (x - 1) as nat, y);
        }
    }
}

pub(crate) proof fn lemma_balance(ops: Seq<crate::diff::Op>)
    ensures
        inserted(ops) + old_total(ops) == deleted(ops) + new_total(ops),
    decreases ops.len(),
{
    if ops.len() > 0 {
        lemma_balance(ops.drop_last());
    }
}

/// Comparing the other way round swaps the lines added with the lines removed.
pub proof fn law_line_changes_mirror(x: Seq<char>, y: Seq<char>)
    requires
        lines_of(x).len() <= usize::MAX,
        lines_of(y).len() <= usize::MAX,
    ensures
        changed_lines(y, x) == (changed_lines(x, y).1, changed_lines(x, y).0),
{
    let a = lines_of(x);
    let b = lines_of(y);
    law_line_script_is_shortest(a, b);
    law_line_script_is_shortest(b, a);
    lemma_distance_mirrored(a, b, a.len(), b.len());
    lemma_balance(line_script(a, b));
    lemma_balance(line_script(b, a));
}

/// The lines of a blob fit a `usize`, as they do once it is in memory.
pub open spec fn countable(objects: Map<Seq<char>, Seq<u8>>, id: Seq<char>) -> bool {
    fetched(objects, id) matches Ok((_, bytes)) ==> lines_of(lossy_text(bytes)).len() <= usize::MAX
}

proof fn lemma_blob_changes_mirror(
    objects: Map<Seq<char>, Seq<u8>>,
    p: FileEntryView,
    e: FileEntryView,
)
    requires
        countable(objects, p.id),
        countable(objects, e.id),
        p.id != e.id ==> blob_changes(objects, p.id, e.id) is Ok,
    ensures
        lines_in(objects, p, e) == lines_out(objects, e, p),
        lines_out(objects, p, e) == lines_in(objects, e, p),
{
    if p.id != e.id {
        let x = fetched(objects, p.id)->Ok_0.1;
        let y = fetched(objects, e.id)->Ok_0.1;
        if !binary(x) && !binary(y) {
            law_line_changes_mirror(lossy_text(x), lossy_text(y));
        }
    }
}

/// Every file of the list is a blob that can be read.
pub open spec fn all_readable(
    objects: Map<Seq<char>, Seq<u8>>,
    list: Seq<FileEntryView>,
) -> bool {
    forall|i: int|
        0 <= i < list.len() ==> fetched(objects, (#[trigger] list[i]).id) matches Ok(
            (Kind::Blob, _),
        )
}

/// The lines of every file of the list fit a `usize`.
pub open spec fn all_countable(
    objects: Map<Seq<char>, Seq<u8>>,
    list: Seq<FileEntryView>,
) -> bool {
    forall|i: int| 0 <= i < list.len() ==> countable(objects, (#[trigger] list[i]).id)
}

proof fn lemma_stats_made(
    objects: Map<Seq<char>, Seq<u8>>,
    old: Seq<FileEntryView>,
    new: Seq<FileEntryView>,
    n: nat,
    m: nat,
)
    requires
        all_readable(objects, old),
        all_readable(objects, new),
        n <= new.len(),
        m <= old.len(),
    ensures
        stats_of_new(objects, old, new, n) is Ok,
        n == new.len() ==> stats_of_old(objects, old, new, m) is Ok,
    decreases n, m,
{
    if m > 0 {
        lemma_stats_made(objects, old, new, n, (m - 1) as nat);
        assert(fetched(objects, old[m - 1].id) is Ok);
    } else if n > 0 {
        lemma_stats_made(objects, old, new, (n - 1) as nat, 0);
        assert(fetched(objects, new[n - 1].id) is Ok);
        let rel = new[n - 1].rel;
        lemma_last_index(old, rel);
        if last_index(old, rel) >= 0 {
            assert(fetched(objects, old[last_index(old, rel)].id) is Ok);
        }
    }
}

/// Comparing two lists of files the other way round swaps files added with
/// files deleted and lines added with lines removed; as many files are
/// modified.
pub proof fn law_stats_mirror(
    objects: Map<Seq<char>, Seq<u8>>,
    old: Seq<FileEntryView>,
    new: Seq<FileEntryView>,
)
    requires
        distinct_paths(old),
        distinct_paths(new),
        all_readable(objects, old),
        all_readable(objects, new),
        old.len() <= u64::MAX,
        new.len() <= u64::MAX,
    ensures
        file_stats(objects, old, new) is Ok,
        file_stats(objects, new, old) is Ok,
        ({
            let s = file_stats(objects, old, new)->Ok_0;
            let t = file_stats(objects, new, old)->Ok_0;
            &&& t.files_added == s.files_deleted
            &&& t.files_deleted == s.files_added
            &&& t.files_modified == s.files_modified
            &&& all_countable(objects, old) && all_countable(objects, new) ==> t.lines_added
                == s.lines_removed && t.lines_removed == s.lines_added
        }),
{
    lemma_stats_made(objects, old, new, new.len(), old.len());
    lemma_stats_made(objects, new, old, old.len(), new.len());
    law_stats_are_sums(objects, old, new);
    law_stats_are_sums(objects, new, old);
    lemma_matched_swap(new, old, by_difference(), by_difference());
    if all_countable(objects, old) && all_countable(objects, new) {
        assert forall|p: FileEntryView, e: FileEntryView|
            new.contains(e) && old.contains(p) implies lines_in(objects, p, e) == lines_out(
            objects,
            e,
            p,
        ) && lines_out(objects, p, e) == lines_in(objects, e, p) by {
            let i = choose|i: int| 0 <= i < new.len() && new[i] == e;
            let j = choose|j: int| 0 <= j < old.len() && old[j] == p;
            assert(countable(objects, new[i].id) && countable(objects, old[j].id));
            assert(fetched(objects, new[i].id) is Ok && fetched(objects, old[j].id) is Ok);
            lemma_blob_changes_mirror(objects, p, e);
        }
        assert forall|p: FileEntryView, e: FileEntryView|
            new.contains(e) && old.contains(p) implies #[trigger] by_lines_in(objects)(p, e)
            == by_lines_out(objects)(e, p) by {
            assert(lines_in(objects, p, e) == lines_out(objects, e, p));
        }
        assert forall|p: FileEntryView, e: FileEntryView|
            new.contains(e) && old.contains(p) implies #[trigger] by_lines_out(objects)(p, e)
            == by_lines_in(objects)(e, p) by {
            assert(lines_out(objects, p, e) == lines_in(objects, e, p));
        }
        lemma_matched_swap(new, old, by_lines_in(objects), by_lines_out(objects));
        lemma_matched_swap(new, old, by_lines_out(objects), by_lines_in(objects));
    }
}

/// Two lists hold the same files.
pub open spec fn same_files(old: Seq<FileEntryView>, new: Seq<FileEntryView>) -> bool {
    forall|e: FileEntryView| #[trigger] old.contains(e) <==> new.contains(e)
}

proof fn lemma_entry_is(list: Seq<FileEntryView>, e: FileEntryView)
    requires
        distinct_paths(list),
        list.contains(e),
    ensures
        entry_for(list, e.rel) == Some(e),
{
    let i = choose|i: int| 0 <= i < list.len() && list[i] == e;
    lemma_last_index(list, e.rel);
    assert(list[last_index(list, e.rel)].rel == list[i].rel);
}

proof fn lemma_same_files_unchanged(
    objects: Map<Seq<char>, Seq<u8>>,
    old: Seq<FileEntryView>,
    new: Seq<FileEntryView>,
    n: nat,
    m: nat,
)
    requires
        distinct_paths(old),
        distinct_paths(new),
        same_files(old, new),
        n <= new.len(),
        m <= old.len(),
    ensures
        stats_of_new(objects, old, new, n) == Ok::<Stats, Seq<char>>(no_changes()),
        n == new.len() ==> stats_of_old(objects, old, new, m) == Ok::<Stats, Seq<char>>(
            no_changes(),
        ),
    decreases n, m,
{
    if m > 0 {
        lemma_same_files_unchanged(objects, old, new, n, (m - 1) as nat);
        assert(old.contains(old[m - 1]));
        lemma_entry_is(new, old[m - 1]);
    } else if n > 0 {
        lemma_same_files_unchanged(objects, old, new, (n - 1) as nat, 0);
        let e = new[n - 1];
        assert(new.contains(e));
        assert(old.contains(e));
        lemma_entry_is(old, e);
    }
}

/// Lists that hold the same files, in any order, have empty statistics.
pub proof fn law_same_files_have_empty_stats(
    objects: Map<Seq<char>, Seq<u8>>,
    old: Seq<FileEntryView>,
    new: Seq<FileEntryView>,
)
    requires
        distinct_paths(old),
        distinct_paths(new),
        same_files(old, new),
    ensures
        file_stats(objects, old, new) == Ok::<Stats, Seq<char>>(no_changes()),
{
    lemma_same_files_unchanged(objects, old, new, new.len(), old.len());
}

/// Statistics are empty exactly where both lists hold the same files, with the
/// same content and exec bit.
pub proof fn law_empty_stats_mean_same_files(
    objects: Map<Seq<char>, Seq<u8>>,
    old: Seq<FileEntryView>,
    new: Seq<FileEntryView>,
)
    requires
        distinct_paths(old),
        distinct_paths(new),
        old.len() <= u64::MAX,
        new.len() <= u64::MAX,
        file_stats(objects, old, new) is Ok,
    ensures
        file_stats(objects, old, new)->Ok_0 == no_changes() <==> same_files(old, new),
{
    if same_files(old, new) {
        law_same_files_have_empty_stats(objects, old, new);
    }
    if file_stats(objects, old, new)->Ok_0 == no_changes() {
        law_stats_are_sums(objects, old, new);
        let fa = unmatched_at(new, old, each_once());
        let fm = matched_at(new, old, by_difference());
        let fd = unmatched_at(old, new, each_once());
        lemma_total_at_most(new.len(), fa);
        lemma_total_at_most(new.len(), fm);
        lemma_total_at_most(old.len(), fd);
        lemma_total_zero(new.len(), fa);
        lemma_total_zero(new.len(), fm);
        lemma_total_zero(old.len(), fd);
        assert forall|e: FileEntryView| #[trigger] old.contains(e) <==> new.contains(e) by {
            if new.contains(e) {
                let i = choose|i: int| 0 <= i < new.len() && new[i] == e;
                assert(fa(i) == 0 && fm(i) == 0);
                lemma_last_index(old, e.rel);
                let p = entry_for(old, e.rel)->0;
                assert(differs(p, e) == 0);
                assert(p == e);
                assert(old[last_index(old, e.rel)] == e);
            }
            if old.contains(e) {
                let j = choose|j: int| 0 <= j < old.len() && old[j] == e;
                assert(fd(j) == 0);
                lemma_last_index(new, e.rel);
                let i = last_index(new, e.rel);
                assert(fa(i) == 0 && fm(i) == 0);
                lemma_entry_is(old, e);
                assert(entry_for(old, new[i].rel) == Some(e));
                assert(differs(e, new[i]) == 0);
                assert(new[i] == e);
            }
        }
    }
}

/// A binary file adds nothing to the line counts.
pub proof fn law_binary_files_count_no_lines(
    objects: Map<Seq<char>, Seq<u8>>,
    p: FileEntryView,
    e: FileEntryView,
)
    requires
        fetched(objects, p.id) is Ok,
        fetched(objects, e.id) is Ok,
        binary(fetched(objects, e.id)->Ok_0.1),
    ensures
        line_total(objects, e.id) == 0,
        lines_in(objects, p, e) == 0,
        lines_out(objects, p, e) == 0,
        lines_in(objects, e, p) == 0,
        lines_out(objects, e, p) == 0,
{
}

/// The lines counted between two blobs are those of a shortest edit script:
/// together as many as the edit distance, with one more added than removed for
/// each line that the new blob is longer. Where either blob is binary none are
/// counted. A blob that is new or gone counts for all its lines, a binary one
/// for none.
pub proof fn law_line_counts_are_those_of_a_shortest_script(
    objects: Map<Seq<char>, Seq<u8>>,
    old_id: Seq<char>,
    new_id: Seq<char>,
)
    requires
        fetched(objects, old_id) is Ok,
        fetched(objects, new_id) is Ok,
        countable(objects, old_id),
        countable(objects, new_id),
    ensures
        ({
            let old = fetched(objects, old_id)->Ok_0.1;
            let new = fetched(objects, new_id)->Ok_0.1;
            let sniffed = |b: Seq<u8>|
                exists|i: int| 0 <= i < b.len() && i < 8192 && #[trigger] b[i] == 0;
            let a = lines_of(lossy_text(old));
            let b = lines_of(lossy_text(new));
            &&& blob_changes(objects, old_id, new_id) is Ok
            &&& blob_lines(objects, new_id) is Ok
            &&& sniffed(old) || sniffed(new) ==> blob_changes(objects, old_id, new_id)->Ok_0 == (
                0nat,
                0nat,
            )
            &&& !sniffed(old) && !sniffed(new) ==> {
                let (added, removed) = blob_changes(objects, old_id, new_id)->Ok_0;
                &&& added + removed == crate::script::distance(a, b)
                &&& added - removed == b.len() - a.len()
            }
            &&& blob_lines(objects, new_id)->Ok_0 == if sniffed(new) {
                0
            } else {
                b.len()
            }
        }),
{
    let old = fetched(objects, old_id)->Ok_0.1;
    let new = fetched(objects, new_id)->Ok_0.1;
    let a = lines_of(lossy_text(old));
    let b = lines_of(lossy_text(new));
    law_line_script_is_shortest(a, b);
    lemma_balance(line_script(a, b));
    lemma_sniffed(old);
    lemma_sniffed(new);
}

proof fn lemma_sniffed(bytes: Seq<u8>)
    ensures
        binary(bytes) <==> exists|i: int|
            0 <= i < bytes.len() && i < 8192 && #[trigger] bytes[i] == 0,
{
}

} // verus!
