//! What a list of paths picks: the files at those paths and everything below
//! them, whichever place of the list a path has.

use vstd::prelude::*;

use crate::compare::{diff_output, diff_upto, in_scope, SideFileView};
use crate::cli::Side;
use crate::guard::at_risk;
use crate::restore::{
    after_writes, begun, entry_bytes, selected_by, selection, selects, settled_run, PlanView,
};
use crate::snapshot::{entry_for, lemma_last_index, snapshot_files, FileEntryView, LoadedView};
use crate::store::StoreView;

verus! {

/// The path is one of the listed ones, or one of them followed by a slash starts
/// it.
pub open spec fn at_or_below(paths: Seq<Seq<char>>, rel: Seq<char>) -> bool {
    exists|i: int|
        0 <= i < paths.len() && (rel == #[trigger] paths[i] || (rel.len() > paths[i].len()
            && rel.take(paths[i].len() as int) == paths[i] && rel[paths[i].len() as int] == '/'))
}

/// A path of the list picks what is at it and below it.
pub(crate) proof fn lemma_selected(paths: Seq<Seq<char>>, rel: Seq<char>)
    ensures
        selected_by(paths, rel) == at_or_below(paths, rel),
{
    reveal_strlit("/");
    assert forall|i: int| 0 <= i < paths.len() implies (#[trigger] selects(paths[i], rel) <==> rel
        == paths[i] || (rel.len() > paths[i].len() && rel.take(paths[i].len() as int) == paths[i]
        && rel[paths[i].len() as int] == '/')) by {
        let p = paths[i];
        let dir = p + "/"@;
        let n = p.len() as int;
        if dir.is_prefix_of(rel) {
            assert(rel.subrange(0, dir.len() as int) =~= dir);
            assert(rel.take(n) =~= p) by {
                assert forall|k: int| 0 <= k < n implies rel[k] == p[k] by {
                    assert(rel.subrange(0, dir.len() as int)[k] == dir[k]);
                }
            }
            assert(rel[n] == dir[n]) by {
                assert(rel.subrange(0, dir.len() as int)[n] == dir[n]);
            }
        }
        if rel.len() > n && rel.take(n) == p && rel[n] == '/' {
            assert(rel.subrange(0, n + 1) =~= dir) by {
                assert forall|k: int| 0 <= k < n implies rel[k] == p[k] by {
                    assert(rel.take(n)[k] == rel[k]);
                }
            }
        }
    }
    if selected_by(paths, rel) {
        let i = choose|i: int| 0 <= i < paths.len() && selects(#[trigger] paths[i], rel);
        assert(selects(paths[i], rel));
        assert(rel == paths[i] || (rel.len() > paths[i].len() && rel.take(paths[i].len() as int)
            == paths[i] && rel[paths[i].len() as int] == '/'));
    }
    if at_or_below(paths, rel) {
        let i = choose|i: int|
            0 <= i < paths.len() && (rel == #[trigger] paths[i] || (rel.len() > paths[i].len()
                && rel.take(paths[i].len() as int) == paths[i] && rel[paths[i].len() as int]
                == '/'));
        assert(selects(paths[i], rel));
    }
}

pub(crate) proof fn lemma_selection_members(
    files: Seq<FileEntryView>,
    paths: Seq<Seq<char>>,
    n: nat,
    e: FileEntryView,
)
    requires
        n <= files.len(),
    ensures
        selection(files, paths, n).contains(e) <==> files.take(n as int).contains(e)
            && at_or_below(paths, e.rel),
    decreases n,
{
    let out = selection(files, paths, n);
    let seen = files.take(n as int);
    if n == 0 {
        assert(seen.len() == 0);
    } else {
        let before = selection(files, paths, (n - 1) as nat);
        let last = files[n - 1];
        lemma_selection_members(files, paths, (n - 1) as nat, e);
        lemma_selected(paths, last.rel);
        let head = files.take(n - 1);
        assert(seen.drop_last() =~= head);
        assert(seen[n - 1] == last);
        if out.contains(e) {
            let k = choose|k: int| 0 <= k < out.len() && out[k] == e;
            if k < before.len() {
                assert(before[k] == e);
                let t = choose|t: int| 0 <= t < head.len() && head[t] == e;
                assert(seen[t] == e);
            } else {
                assert(e == last);
            }
        }
        if seen.contains(e) && at_or_below(paths, e.rel) {
            let t = choose|t: int| 0 <= t < seen.len() && seen[t] == e;
            if t < n - 1 {
                assert(head[t] == e);
                let k = choose|k: int| 0 <= k < before.len() && before[k] == e;
                assert(out[k] == e);
            } else {
                assert(out[out.len() - 1] == e);
            }
        }
    }
}

/// A run of settling leaves each settled file standing, and nothing else
/// changed.
pub(crate) proof fn lemma_run_writes(
    s: StoreView,
    plan: PlanView,
    disk: Map<Seq<char>, (Seq<u8>, bool)>,
    n: nat,
)
    requires
        n <= plan.selected.len(),
        settled_run(s, plan, disk, n) is Ok,
    ensures
        settled_run(s, plan, disk, n)->Ok_0.0 == after_writes(s, disk, plan.selected, n),
    decreases n,
{
    if n > 0 {
        let m = (n - 1) as nat;
        lemma_run_writes(s, plan, disk, m);
        let e = plan.selected[n - 1];
        let now = settled_run(s, plan, disk, m)->Ok_0.0;
        let end = settled_run(s, plan, disk, n)->Ok_0.0;
        assert(end =~= after_writes(s, disk, plan.selected, n));
    }
}

/// Two lists hold the same paths, in whatever order and however often.
pub open spec fn same_paths(p: Seq<Seq<char>>, q: Seq<Seq<char>>) -> bool {
    forall|x: Seq<char>| #[trigger] p.contains(x) <==> q.contains(x)
}

proof fn lemma_same_paths(p: Seq<Seq<char>>, q: Seq<Seq<char>>, rel: Seq<char>)
    requires
        same_paths(p, q),
    ensures
        selected_by(p, rel) == selected_by(q, rel),
        p.len() == 0 <==> q.len() == 0,
{
    if selected_by(p, rel) {
        let i = choose|i: int| 0 <= i < p.len() && selects(#[trigger] p[i], rel);
        assert(p.contains(p[i]));
        assert(q.contains(p[i]));
        let j = choose|j: int| 0 <= j < q.len() && q[j] == p[i];
        assert(selects(q[j], rel));
    }
    if selected_by(q, rel) {
        let i = choose|i: int| 0 <= i < q.len() && selects(#[trigger] q[i], rel);
        assert(q.contains(q[i]));
        assert(p.contains(q[i]));
        let j = choose|j: int| 0 <= j < p.len() && p[j] == q[i];
        assert(selects(p[j], rel));
    }
    if p.len() > 0 {
        assert(p.contains(p[0]));
        assert(q.contains(p[0]));
    }
    if q.len() > 0 {
        assert(q.contains(q[0]));
        assert(p.contains(q[0]));
    }
}

proof fn lemma_same_selection(
    files: Seq<FileEntryView>,
    p: Seq<Seq<char>>,
    q: Seq<Seq<char>>,
    n: nat,
)
    requires
        same_paths(p, q),
    ensures
        selection(files, p, n) == selection(files, q, n),
    decreases n,
{
    if 0 < n <= files.len() {
        lemma_same_selection(files, p, q, (n - 1) as nat);
        lemma_same_paths(p, q, files[n - 1].rel);
    }
}

proof fn lemma_same_risk(
    s: StoreView,
    target: crate::object::SnapshotView,
    p: Seq<Seq<char>>,
    q: Seq<Seq<char>>,
    hidden: Seq<LoadedView>,
    n: nat,
)
    requires
        same_paths(p, q),
    ensures
        at_risk(s, target, p, hidden, n) == at_risk(s, target, q, hidden, n),
    decreases n,
{
    if 0 < n <= hidden.len() {
        lemma_same_risk(s, target, p, q, hidden, (n - 1) as nat);
        lemma_same_paths(p, q, hidden[n - 1].rel);
    }
}

/// A restore that is limited to paths plans for exactly the files of the target
/// turn that are at one of them or below one of them: for every place of the
/// list, each file whose path is the one there or goes on from it with a slash.
pub proof fn law_every_listed_path_is_restored(
    s: StoreView,
    work: Seq<LoadedView>,
    hidden: Seq<LoadedView>,
    turn: u64,
    paths: Seq<Seq<char>>,
    force: bool,
    no_backup: bool,
    agent: Seq<char>,
    time: i64,
    disk: Map<Seq<char>, (Seq<u8>, bool)>,
)
    requires
        paths.len() > 0,
        begun(s, work, hidden, turn, paths, force, no_backup, agent, time).1 is Ok,
    ensures
        ({
            let (after, r) = begun(s, work, hidden, turn, paths, force, no_backup, agent, time);
            let plan = r->Ok_0;
            let files = snapshot_files(after.objects, s.snapshot(turn)->Ok_0.tree)->Ok_0;
            let run = settled_run(after, plan, disk, plan.selected.len());
            &&& !plan.full
            &&& forall|e: FileEntryView| #[trigger]
                plan.selected.contains(e) <==> files.contains(e) && at_or_below(paths, e.rel)
            &&& run matches Ok((end, written)) ==> {
                &&& forall|i: int, k: int|
                    0 <= i < paths.len() && 0 <= k < files.len() && entry_for(files, files[k].rel)
                        == Some(files[k]) && at_or_below(seq![#[trigger] paths[i]], (
                    #[trigger] files[k]).rel) ==> end.contains_key(files[k].rel)
                        && end[files[k].rel] == (
                        entry_bytes(after, files[k]),
                        files[k].executable,
                    )
                &&& forall|rel: Seq<char>|
                    !at_or_below(paths, rel) || (forall|k: int|
                        0 <= k < files.len() ==> (#[trigger] files[k]).rel != rel)
                        ==> (#[trigger] end.contains_key(rel) == disk.contains_key(rel)) && (
                    disk.contains_key(rel) ==> end[rel] == disk[rel])
            }
        }),
{
    let (after, r) = begun(s, work, hidden, turn, paths, force, no_backup, agent, time);
    let plan = r->Ok_0;
    let files = snapshot_files(after.objects, s.snapshot(turn)->Ok_0.tree)->Ok_0;
    let list = selection(files, paths, files.len());
    assert(plan.selected == list);
    assert(files.take(files.len() as int) =~= files);
    assert forall|e: FileEntryView| #[trigger] plan.selected.contains(e) <==> files.contains(e)
        && at_or_below(paths, e.rel) by {
        lemma_selection_members(files, paths, files.len(), e);
    }
    if let Ok((end, written)) = settled_run(after, plan, disk, plan.selected.len()) {
        lemma_run_writes(after, plan, disk, plan.selected.len());
        assert forall|i: int, k: int|
            0 <= i < paths.len() && 0 <= k < files.len() && entry_for(files, files[k].rel) == Some(
                files[k],
            ) && at_or_below(seq![#[trigger] paths[i]], (#[trigger] files[k]).rel) implies
            end.contains_key(files[k].rel) && end[files[k].rel] == (
            entry_bytes(after, files[k]),
            files[k].executable,
        ) by {
            let rel = files[k].rel;
            let one = seq![paths[i]];
            let z = choose|z: int|
                0 <= z < one.len() && (rel == #[trigger] one[z] || (rel.len() > one[z].len()
                    && rel.take(one[z].len() as int) == one[z] && rel[one[z].len() as int] == '/'));
            assert(one[z] == paths[i]);
            assert(at_or_below(paths, rel));
            lemma_selected(paths, rel);
            crate::restore::law_scoped_restore_touches_selected_paths(
                after,
                files,
                paths,
                disk,
                rel,
            );
        }
        assert forall|rel: Seq<char>|
            !at_or_below(paths, rel) || (forall|k: int|
                0 <= k < files.len() ==> (#[trigger] files[k]).rel != rel) implies (
        #[trigger] end.contains_key(rel) == disk.contains_key(rel)) && (disk.contains_key(rel)
            ==> end[rel] == disk[rel]) by {
            lemma_selected(paths, rel);
            lemma_last_index(files, rel);
            crate::restore::law_scoped_restore_touches_selected_paths(
                after,
                files,
                paths,
                disk,
                rel,
            );
        }
    }
}

/// What a restore does depends on which paths are listed, not on their order or
/// on how often one is.
pub proof fn law_order_of_paths_does_not_matter(
    s: StoreView,
    work: Seq<LoadedView>,
    hidden: Seq<LoadedView>,
    turn: u64,
    p: Seq<Seq<char>>,
    q: Seq<Seq<char>>,
    force: bool,
    no_backup: bool,
    agent: Seq<char>,
    time: i64,
)
    requires
        same_paths(p, q),
    ensures
        begun(s, work, hidden, turn, p, force, no_backup, agent, time) == begun(
            s,
            work,
            hidden,
            turn,
            q,
            force,
            no_backup,
            agent,
            time,
        ),
{
    lemma_same_paths(p, q, Seq::empty());
    if let Ok(target) = s.snapshot(turn) {
        lemma_same_risk(s, target, p, q, hidden, hidden.len());
    }
    assert forall|files: Seq<FileEntryView>, n: nat| #[trigger]
        selection(files, p, n) == selection(files, q, n) by {
        lemma_same_selection(files, p, q, n);
    }
}

proof fn lemma_same_diff(
    s: StoreView,
    rels: Seq<Seq<char>>,
    n: nat,
    p: Seq<Seq<char>>,
    q: Seq<Seq<char>>,
    from: Seq<char>,
    to: Seq<char>,
    a: Seq<SideFileView>,
    b: Seq<SideFileView>,
)
    requires
        same_paths(p, q),
    ensures
        diff_upto(s, rels, n, p, from, to, a, b) == diff_upto(s, rels, n, q, from, to, a, b),
    decreases n,
{
    if 0 < n <= rels.len() {
        lemma_same_diff(s, rels, (n - 1) as nat, p, q, from, to, a, b);
        lemma_same_paths(p, q, rels[n - 1]);
    }
}

/// What a diff shows depends on which paths it is limited to, not on their
/// order.
pub proof fn law_order_of_diff_paths_does_not_matter(
    s: StoreView,
    work: Seq<LoadedView>,
    from: Side,
    to: Side,
    p: Seq<Seq<char>>,
    q: Seq<Seq<char>>,
    json: bool,
)
    requires
        same_paths(p, q),
    ensures
        diff_output(s, work, from, to, p, json) == diff_output(s, work, from, to, q, json),
{
    assert forall|rels: Seq<Seq<char>>, n: nat, x: Seq<char>, y: Seq<char>, a: Seq<SideFileView>, b: Seq<
        SideFileView,
    >| #[trigger] diff_upto(s, rels, n, p, x, y, a, b) == diff_upto(s, rels, n, q, x, y, a, b) by {
        lemma_same_diff(s, rels, n, p, q, x, y, a, b);
    }
}

/// A diff is limited to what is at the listed paths or below them.
pub(crate) proof fn lemma_in_scope(paths: Seq<Seq<char>>, rel: Seq<char>)
    ensures
        in_scope(paths, rel) == (paths.len() == 0 || at_or_below(paths, rel)),
{
    lemma_selected(paths, rel);
}

} // verus!
