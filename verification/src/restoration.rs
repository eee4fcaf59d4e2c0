//! What a full restore comes to, from its beginning to its end: no change is
//! left against the target, it writes and deletes no more than it has to, and a
//! second one does nothing.
//!
//! The disk is a map from paths to bytes and exec bits. Which paths a walk
//! lists is up to the rules that hide files; they are taken as given, and as
//! the same before and after.

use vstd::prelude::*;

use crate::audit::{known, tree_complete, turn_sound};
use crate::guard::at_risk;
use crate::listing::{distinct_paths, lemma_sorted_distinct};
use crate::lookup::{entries_of, lemma_entries_of, names_plain, well_named};
use crate::object::{fetched, object_id, well_formed_id, Kind, TreeEntryView};
use crate::order::law_sorted_by;
use crate::readback::{extends, law_history_is_append_only};
use crate::restore::{
    after_deletes, after_writes, backup_label, begun, compared, entry_bytes, has_path,
    law_full_restore_reaches_target, law_restore_keeps_the_store, lemma_after_writes,
    lemma_surplus, missing, no_difference, settled_run, surplus, tree_changes, ChangesView,
    PlanView,
};
use crate::snapshot::{
    blobs_stored, entry_for, flat_entries, flat_tree, grown_tree, last_index, lemma_last_index,
    path_below, snapshot_files, taken, FileEntryView, LoadedView,
};
use crate::soundness::{as_written, kinds_of, lemma_known_extends, objects_sound, store_sound};
use crate::store::{lemma_ref_kept, lemma_recorded_is_listed, StoreView};
use crate::survey::{dir_components, lemma_components_below};
use crate::text::pieces;
use crate::tree::{subtrees_stored, tree_stored, EntryView, NodeView};
use crate::walker::WorkFileView;

verus! {

/// The files are those on the disk that a walk lists, each once.
pub open spec fn lists_disk(
    files: Seq<WorkFileView>,
    disk: Map<Seq<char>, (Seq<u8>, bool)>,
    visible: spec_fn(Seq<char>) -> bool,
) -> bool {
    &&& forall|i: int|
        0 <= i < files.len() ==> visible((#[trigger] files[i]).rel) && disk.contains_key(
            files[i].rel,
        )
    &&& forall|rel: Seq<char>| #[trigger]
        disk.contains_key(rel) && visible(rel) ==> exists|i: int|
            0 <= i < files.len() && (#[trigger] files[i]).rel == rel
    &&& forall|i: int, j: int|
        0 <= i < files.len() && 0 <= j < files.len() && (#[trigger] files[i]).rel == (
        #[trigger] files[j]).rel ==> i == j
}

/// The loaded files are those on the disk that a walk lists, each once, with
/// their bytes and exec bits.
pub open spec fn loads_disk(
    work: Seq<LoadedView>,
    disk: Map<Seq<char>, (Seq<u8>, bool)>,
    visible: spec_fn(Seq<char>) -> bool,
) -> bool {
    &&& forall|i: int|
        0 <= i < work.len() ==> {
            let f = #[trigger] work[i];
            visible(f.rel) && disk.contains_key(f.rel) && f.data == Ok::<Seq<u8>, Seq<char>>(
                disk[f.rel].0,
            ) && f.executable == disk[f.rel].1
        }
    &&& forall|rel: Seq<char>| #[trigger]
        disk.contains_key(rel) && visible(rel) ==> has_path(work, rel)
    &&& forall|i: int, j: int|
        0 <= i < work.len() && 0 <= j < work.len() && (#[trigger] work[i]).rel == (
        #[trigger] work[j]).rel ==> i == j
}

/// Every file is a blob that can be read.
pub open spec fn files_readable(s: StoreView, files: Seq<FileEntryView>) -> bool {
    forall|i: int|
        0 <= i < files.len() ==> fetched(s.objects, (#[trigger] files[i]).id) == Ok::<
            (Kind, Seq<u8>),
            Seq<char>,
        >((Kind::Blob, entry_bytes(s, files[i])))
}

/// The id of every file is that of its bytes.
pub open spec fn files_addressed(s: StoreView, files: Seq<FileEntryView>) -> bool {
    forall|i: int|
        0 <= i < files.len() ==> object_id(Kind::Blob, entry_bytes(s, #[trigger] files[i]))
            == files[i].id
}

/// A full restore of files that a walk lists, where what the walk lists may be
/// replaced.
pub open spec fn in_full(
    s: StoreView,
    plan: PlanView,
    disk: Map<Seq<char>, (Seq<u8>, bool)>,
    visible: spec_fn(Seq<char>) -> bool,
) -> bool {
    &&& plan.full
    &&& plan.selected == plan.all
    &&& files_readable(s, plan.all)
    &&& forall|i: int| 0 <= i < plan.all.len() ==> visible((#[trigger] plan.all[i]).rel)
    &&& forall|rel: Seq<char>| #[trigger]
        disk.contains_key(rel) && visible(rel) ==> plan.may_replace(rel)
}

/// The disk after the files of a plan were written.
pub open spec fn written_disk(
    s: StoreView,
    plan: PlanView,
    disk: Map<Seq<char>, (Seq<u8>, bool)>,
) -> Map<Seq<char>, (Seq<u8>, bool)> {
    after_writes(s, disk, plan.selected, plan.selected.len())
}

/// The disk after a full restore, whose second walk found `found`.
pub open spec fn restored_disk(
    s: StoreView,
    plan: PlanView,
    disk: Map<Seq<char>, (Seq<u8>, bool)>,
    found: Seq<WorkFileView>,
) -> Map<Seq<char>, (Seq<u8>, bool)> {
    let doomed = surplus(plan, found, found.len());
    after_deletes(written_disk(s, plan, disk), doomed, doomed.len())
}

/// How many of the first `n` files are absent from the disk or differ there in
/// bytes or exec bit.
pub open spec fn differing(
    s: StoreView,
    disk: Map<Seq<char>, (Seq<u8>, bool)>,
    files: Seq<FileEntryView>,
    n: nat,
) -> nat
    decreases n,
{
    if n == 0 || n > files.len() {
        0
    } else {
        let e = files[n - 1];
        let there = disk.contains_key(e.rel) && disk[e.rel] == (entry_bytes(s, e), e.executable);
        differing(s, disk, files, (n - 1) as nat) + if there {
            0nat
        } else {
            1
        }
    }
}

/// How many of the first `n` files of the working tree the target lacks.
pub open spec fn lacking(all: Seq<FileEntryView>, work: Seq<LoadedView>, n: nat) -> nat
    decreases n,
{
    if n == 0 || n > work.len() {
        0
    } else {
        lacking(all, work, (n - 1) as nat) + if last_index(all, work[n - 1].rel) >= 0 {
            0nat
        } else {
            1
        }
    }
}

/// Of what a walk lists, a full restore leaves the target's files and no
/// others.
proof fn lemma_restored_disk(
    s: StoreView,
    plan: PlanView,
    disk: Map<Seq<char>, (Seq<u8>, bool)>,
    visible: spec_fn(Seq<char>) -> bool,
    found: Seq<WorkFileView>,
    rel: Seq<char>,
)
    requires
        in_full(s, plan, disk, visible),
        lists_disk(found, written_disk(s, plan, disk), visible),
    ensures
        ({
            let end = restored_disk(s, plan, disk, found);
            match entry_for(plan.all, rel) {
                Some(e) => end.contains_key(rel) && end[rel] == (entry_bytes(s, e), e.executable),
                None => visible(rel) ==> !end.contains_key(rel),
            }
        }),
{
    law_full_restore_reaches_target(s, plan, disk, found, rel);
    lemma_after_writes(s, disk, plan.selected, plan.selected.len(), rel);
    assert(plan.selected.take(plan.selected.len() as int) =~= plan.selected);
    if entry_for(plan.all, rel) is None && visible(rel) && disk.contains_key(rel) {
        assert(plan.may_replace(rel));
        assert(written_disk(s, plan, disk).contains_key(rel));
        let i = choose|i: int| 0 <= i < found.len() && (#[trigger] found[i]).rel == rel;
        assert(found[i].rel == rel);
    }
}

proof fn lemma_nothing_compared(
    s: StoreView,
    all: Seq<FileEntryView>,
    work: Seq<LoadedView>,
    n: nat,
)
    requires
        n <= work.len(),
        files_addressed(s, all),
        forall|i: int|
            0 <= i < work.len() ==> {
                let f = #[trigger] work[i];
                let e = entry_for(all, f.rel);
                e is Some && f.data == Ok::<Seq<u8>, Seq<char>>(entry_bytes(s, e->0))
                    && f.executable == e->0.executable
            },
    ensures
        compared(all, work, n) == Ok::<ChangesView, Seq<char>>(no_difference()),
    decreases n,
{
    if n > 0 {
        lemma_nothing_compared(s, all, work, (n - 1) as nat);
        let f = work[n - 1];
        lemma_last_index(all, f.rel);
        let e = all[last_index(all, f.rel)];
        assert(entry_for(all, f.rel) == Some(e));
        assert(object_id(Kind::Blob, entry_bytes(s, e)) == e.id);
    }
}

proof fn lemma_nothing_missing(all: Seq<FileEntryView>, work: Seq<LoadedView>, n: nat)
    requires
        n <= all.len(),
        forall|i: int| 0 <= i < all.len() ==> has_path(work, (#[trigger] all[i]).rel),
    ensures
        missing(all, work, n) == Seq::<Seq<char>>::empty(),
    decreases n,
{
    if n > 0 {
        lemma_nothing_missing(all, work, (n - 1) as nat);
        assert(has_path(work, all[n - 1].rel));
    }
}

/// Settling the files of a full plan succeeds and leaves them written. Where no
/// path is repeated, as many are written as were absent or differed.
proof fn lemma_settled_run(
    s: StoreView,
    plan: PlanView,
    disk: Map<Seq<char>, (Seq<u8>, bool)>,
    visible: spec_fn(Seq<char>) -> bool,
    n: nat,
)
    requires
        in_full(s, plan, disk, visible),
        n <= plan.all.len(),
    ensures
        settled_run(s, plan, disk, n) is Ok,
        settled_run(s, plan, disk, n)->Ok_0.0 == after_writes(s, disk, plan.all, n),
        distinct_paths(plan.all) ==> settled_run(s, plan, disk, n)->Ok_0.1 == differing(
            s,
            disk,
            plan.all,
            n,
        ),
    decreases n,
{
    if n > 0 {
        let m = (n - 1) as nat;
        lemma_settled_run(s, plan, disk, visible, m);
        let e = plan.all[n - 1];
        let now = after_writes(s, disk, plan.all, m);
        let head = plan.all.take(m as int);
        lemma_after_writes(s, disk, plan.all, m, e.rel);
        lemma_last_index(head, e.rel);
        let k = last_index(head, e.rel);
        if k >= 0 {
            assert(plan.selected[k].rel == e.rel);
            assert(plan.may_write(e.rel, n - 1));
            if distinct_paths(plan.all) {
                assert(plan.all[k].rel == plan.all[n - 1].rel);
            }
        } else if disk.contains_key(e.rel) {
            assert(visible(plan.all[n - 1].rel));
            assert(plan.may_replace(e.rel));
        }
        assert(fetched(s.objects, plan.all[n - 1].id) is Ok);
        let after = after_writes(s, disk, plan.all, n);
        if now.contains_key(e.rel) && now[e.rel] == (entry_bytes(s, e), e.executable) {
            assert(after =~= now);
        }
    }
}

/// A restore of the whole tree plans for all files of the target turn, and may
/// replace whatever it was told of.
pub proof fn law_full_plan_covers_the_target(
    s: StoreView,
    work: Seq<LoadedView>,
    hidden: Seq<LoadedView>,
    turn: u64,
    force: bool,
    no_backup: bool,
    agent: Seq<char>,
    time: i64,
)
    requires
        begun(s, work, hidden, turn, Seq::empty(), force, no_backup, agent, time).1 is Ok,
    ensures
        ({
            let (after, r) = begun(
                s,
                work,
                hidden,
                turn,
                Seq::empty(),
                force,
                no_backup,
                agent,
                time,
            );
            let plan = r->Ok_0;
            &&& plan.full
            &&& plan.selected == plan.all
            &&& s.snapshot(turn) is Ok
            &&& snapshot_files(after.objects, s.snapshot(turn)->Ok_0.tree) == Ok::<
                Seq<FileEntryView>,
                Seq<char>,
            >(plan.all)
            &&& forall|rel: Seq<char>|
                has_path(work, rel) || has_path(hidden, rel) ==> #[trigger] plan.may_replace(rel)
        }),
{
}

/// Where the ids of the target's files are those of their bytes, no change is
/// left against the target.
proof fn lemma_no_change_left(
    s: StoreView,
    tree: Seq<char>,
    plan: PlanView,
    disk: Map<Seq<char>, (Seq<u8>, bool)>,
    visible: spec_fn(Seq<char>) -> bool,
    found: Seq<WorkFileView>,
    work: Seq<LoadedView>,
)
    requires
        snapshot_files(s.objects, tree) == Ok::<Seq<FileEntryView>, Seq<char>>(plan.all),
        in_full(s, plan, disk, visible),
        files_addressed(s, plan.all),
        lists_disk(found, written_disk(s, plan, disk), visible),
        loads_disk(work, restored_disk(s, plan, disk, found), visible),
    ensures
        tree_changes(s, work, tree) == Ok::<ChangesView, Seq<char>>(no_difference()),
{
    let end = restored_disk(s, plan, disk, found);
    assert forall|i: int| 0 <= i < work.len() implies {
        let f = #[trigger] work[i];
        let e = entry_for(plan.all, f.rel);
        e is Some && f.data == Ok::<Seq<u8>, Seq<char>>(entry_bytes(s, e->0)) && f.executable
            == e->0.executable
    } by {
        lemma_restored_disk(s, plan, disk, visible, found, work[i].rel);
    }
    lemma_nothing_compared(s, plan.all, work, work.len());
    assert forall|i: int| 0 <= i < plan.all.len() implies has_path(
        work,
        (#[trigger] plan.all[i]).rel,
    ) by {
        let rel = plan.all[i].rel;
        lemma_last_index(plan.all, rel);
        assert(entry_for(plan.all, rel) is Some);
        lemma_restored_disk(s, plan, disk, visible, found, rel);
        assert(end.contains_key(rel));
        assert(visible(plan.all[i].rel));
    }
    lemma_nothing_missing(plan.all, work, plan.all.len());
}

/// The working tree's files as a walk finds them.
spec fn found_files(work: Seq<LoadedView>) -> Seq<WorkFileView> {
    work.map_values(
        |f: LoadedView| WorkFileView { rel: f.rel, abs: f.abs, executable: f.executable },
    )
}

proof fn lemma_lacking(
    plan: PlanView,
    disk: Map<Seq<char>, (Seq<u8>, bool)>,
    visible: spec_fn(Seq<char>) -> bool,
    work: Seq<LoadedView>,
    n: nat,
)
    requires
        n <= work.len(),
        loads_disk(work, disk, visible),
        forall|rel: Seq<char>| #[trigger]
            disk.contains_key(rel) && visible(rel) ==> plan.may_replace(rel),
    ensures
        surplus(plan, found_files(work), n).len() == lacking(plan.all, work, n),
    decreases n,
{
    if n > 0 {
        lemma_lacking(plan, disk, visible, work, (n - 1) as nat);
        let f = work[n - 1];
        assert(found_files(work)[n - 1].rel == f.rel);
        assert(disk.contains_key(f.rel) && visible(f.rel));
        lemma_last_index(plan.all, f.rel);
    }
}

/// As many files are deleted as the first walk listed that the target lacks.
proof fn lemma_deletions(
    s: StoreView,
    plan: PlanView,
    disk: Map<Seq<char>, (Seq<u8>, bool)>,
    visible: spec_fn(Seq<char>) -> bool,
    work: Seq<LoadedView>,
    found: Seq<WorkFileView>,
)
    requires
        in_full(s, plan, disk, visible),
        loads_disk(work, disk, visible),
        lists_disk(found, written_disk(s, plan, disk), visible),
    ensures
        surplus(plan, found, found.len()).len() == lacking(plan.all, work, work.len()),
{
    let before = found_files(work);
    let a = surplus(plan, found, found.len());
    let b = surplus(plan, before, before.len());
    lemma_lacking(plan, disk, visible, work, work.len());
    assert forall|i: int, j: int|
        0 <= i < before.len() && 0 <= j < before.len() && (#[trigger] before[i]).rel == (
        #[trigger] before[j]).rel implies i == j by {
        assert(work[i].rel == work[j].rel);
    }
    lemma_surplus_distinct(plan, found, found.len());
    lemma_surplus_distinct(plan, before, before.len());
    assert forall|rel: Seq<char>| #[trigger] paths_in(a).contains(rel) <==> paths_in(b).contains(
        rel,
    ) by {
        lemma_paths_in(a, rel);
        lemma_paths_in(b, rel);
        lemma_surplus(plan, found, found.len(), rel);
        lemma_surplus(plan, before, before.len(), rel);
        lemma_after_writes(s, disk, plan.selected, plan.selected.len(), rel);
        assert(plan.selected.take(plan.selected.len() as int) =~= plan.selected);
        if last_index(plan.all, rel) < 0 {
            if exists|i: int| 0 <= i < found.len() && (#[trigger] found[i]).rel == rel {
                let i = choose|i: int| 0 <= i < found.len() && (#[trigger] found[i]).rel == rel;
                assert(disk.contains_key(rel) && visible(rel));
                let k = choose|k: int| 0 <= k < work.len() && (#[trigger] work[k]).rel == rel;
                assert(before[k].rel == rel);
            }
            if exists|i: int| 0 <= i < before.len() && (#[trigger] before[i]).rel == rel {
                let i = choose|i: int| 0 <= i < before.len() && (#[trigger] before[i]).rel == rel;
                assert(work[i].rel == rel);
                assert(written_disk(s, plan, disk).contains_key(rel) && visible(rel));
            }
        }
    }
    paths_in(a).unique_seq_to_set();
    paths_in(b).unique_seq_to_set();
    assert(paths_in(a).to_set() =~= paths_in(b).to_set()) by {
        assert forall|rel: Seq<char>| paths_in(a).to_set().contains(rel) <==> paths_in(
            b,
        ).to_set().contains(rel) by {
            assert(paths_in(a).contains(rel) <==> paths_in(b).contains(rel));
        }
    }
}

/// The paths of found files.
spec fn paths_in(files: Seq<WorkFileView>) -> Seq<Seq<char>> {
    files.map_values(|f: WorkFileView| f.rel)
}

proof fn lemma_paths_in(files: Seq<WorkFileView>, rel: Seq<char>)
    ensures
        paths_in(files).contains(rel) <==> exists|i: int|
            0 <= i < files.len() && (#[trigger] files[i]).rel == rel,
{
    if paths_in(files).contains(rel) {
        let i = choose|i: int| 0 <= i < paths_in(files).len() && paths_in(files)[i] == rel;
        assert(files[i].rel == rel);
    }
    if exists|i: int| 0 <= i < files.len() && (#[trigger] files[i]).rel == rel {
        let i = choose|i: int| 0 <= i < files.len() && (#[trigger] files[i]).rel == rel;
        assert(paths_in(files)[i] == rel);
    }
}

proof fn lemma_surplus_distinct(plan: PlanView, work: Seq<WorkFileView>, n: nat)
    requires
        n <= work.len(),
        forall|i: int, j: int|
            0 <= i < work.len() && 0 <= j < work.len() && (#[trigger] work[i]).rel == (
            #[trigger] work[j]).rel ==> i == j,
    ensures
        paths_in(surplus(plan, work, n)).no_duplicates(),
    decreases n,
{
    if n > 0 {
        let m = (n - 1) as nat;
        lemma_surplus_distinct(plan, work, m);
        let before = surplus(plan, work, m);
        let out = surplus(plan, work, n);
        if out != before {
            let rel = work[n - 1].rel;
            assert(paths_in(out) =~= paths_in(before).push(rel));
            lemma_paths_in(before, rel);
            lemma_surplus(plan, work, m, rel);
            if paths_in(before).contains(rel) {
                let k = choose|k: int| 0 <= k < m && (#[trigger] work[k]).rel == rel;
                assert(work[k].rel == work[n - 1].rel);
            }
        }
    }
}

/// The listing of a complete tree is made, its files are blobs that can be
/// read, and it stays the same as objects are added.
proof fn lemma_flat_tree_kept(
    old: Map<Seq<char>, Seq<u8>>,
    new: Map<Seq<char>, Seq<u8>>,
    tree: Seq<char>,
    prefix: Seq<char>,
    depth: nat,
    deeper: nat,
)
    requires
        objects_sound(old),
        extends(old, new),
        tree_complete(old, kinds_of(old), tree, depth),
        depth <= deeper,
    ensures
        flat_tree(old, tree, prefix, depth) is Ok,
        flat_tree(new, tree, prefix, deeper) == flat_tree(old, tree, prefix, depth),
        forall|x: FileEntryView| #[trigger]
            flat_tree(old, tree, prefix, depth)->Ok_0.contains(x) ==> blob_kept(old, new, x.id),
    decreases depth, entries_of(old, tree).len() + 1,
{
    lemma_known_extends(old, new, tree, Kind::Tree);
    lemma_entries_of(old, tree);
    let entries = entries_of(old, tree);
    lemma_flat_entries_kept(
        old,
        new,
        tree,
        entries.len(),
        prefix,
        (depth - 1) as nat,
        (deeper - 1) as nat,
    );
}

/// The object is a blob that can be read, in both tables alike.
spec fn blob_kept(
    old: Map<Seq<char>, Seq<u8>>,
    new: Map<Seq<char>, Seq<u8>>,
    id: Seq<char>,
) -> bool {
    &&& old.contains_key(id)
    &&& fetched(old, id) matches Ok((Kind::Blob, _))
    &&& fetched(new, id) == fetched(old, id)
}

proof fn lemma_flat_entries_kept(
    old: Map<Seq<char>, Seq<u8>>,
    new: Map<Seq<char>, Seq<u8>>,
    tree: Seq<char>,
    n: nat,
    prefix: Seq<char>,
    depth: nat,
    deeper: nat,
)
    requires
        objects_sound(old),
        extends(old, new),
        tree_complete(old, kinds_of(old), tree, depth + 1),
        depth <= deeper,
        n <= entries_of(old, tree).len(),
    ensures
        flat_entries(old, entries_of(old, tree), n, prefix, depth) is Ok,
        flat_entries(new, entries_of(old, tree), n, prefix, deeper) == flat_entries(
            old,
            entries_of(old, tree),
            n,
            prefix,
            depth,
        ),
        forall|x: FileEntryView| #[trigger]
            flat_entries(old, entries_of(old, tree), n, prefix, depth)->Ok_0.contains(x)
                ==> blob_kept(old, new, x.id),
    decreases depth + 1, n,
{
    let entries = entries_of(old, tree);
    if n > 0 {
        lemma_flat_entries_kept(old, new, tree, (n - 1) as nat, prefix, depth, deeper);
        lemma_entries_of(old, tree);
        let before = flat_entries(old, entries, (n - 1) as nat, prefix, depth)->Ok_0;
        let list = flat_entries(old, entries, n, prefix, depth)->Ok_0;
        let e = entries[n - 1];
        let rel = path_below(prefix, e.name);
        if e.is_dir() {
            assert(tree_complete(old, kinds_of(old), e.id, depth));
            lemma_flat_tree_kept(old, new, e.id, rel, depth, deeper);
            let below = flat_tree(old, e.id, rel, depth)->Ok_0;
            assert forall|x: FileEntryView| #[trigger] list.contains(x) implies blob_kept(
                old,
                new,
                x.id,
            ) by {
                let k = choose|k: int| 0 <= k < list.len() && list[k] == x;
                if k < before.len() {
                    assert(before[k] == x);
                    assert(before.contains(x));
                } else {
                    assert(below[k - before.len()] == x);
                    assert(below.contains(x));
                }
            }
        } else {
            assert(known(kinds_of(old), e.id, Kind::Blob));
            lemma_known_extends(old, new, e.id, Kind::Blob);
            assert(old.contains_key(e.id));
            assert(well_formed_id(e.id));
            assert(blob_kept(old, new, e.id));
            assert forall|x: FileEntryView| #[trigger] list.contains(x) implies blob_kept(
                old,
                new,
                x.id,
            ) by {
                let k = choose|k: int| 0 <= k < list.len() && list[k] == x;
                if k < before.len() {
                    assert(before[k] == x);
                    assert(before.contains(x));
                }
            }
        }
    }
}

/// In trees whose names are single components, unique in each, no path is
/// listed twice.
proof fn lemma_flat_distinct(
    objects: Map<Seq<char>, Seq<u8>>,
    entries: Seq<TreeEntryView>,
    n: nat,
    prefix: Seq<char>,
    depth: nat,
)
    requires
        n <= entries.len(),
        flat_entries(objects, entries, n, prefix, depth) is Ok,
        names_plain(entries),
        forall|i: int| 0 <= i < entries.len() ==> (#[trigger] entries[i]).name.len() > 0,
        forall|i: int|
            0 <= i < entries.len() && (#[trigger] entries[i]).is_dir() ==> well_named(
                objects,
                entries[i].id,
                depth,
            ),
    ensures
        distinct_paths(flat_entries(objects, entries, n, prefix, depth)->Ok_0),
        forall|k: int|
            0 <= k < flat_entries(objects, entries, n, prefix, depth)->Ok_0.len() ==> below_some(
                entries,
                n,
                prefix,
                (#[trigger] flat_entries(objects, entries, n, prefix, depth)->Ok_0[k]).rel,
            ),
    decreases depth, n,
{
    if n > 0 {
        let m = (n - 1) as nat;
        let before = flat_entries(objects, entries, m, prefix, depth)->Ok_0;
        let list = flat_entries(objects, entries, n, prefix, depth)->Ok_0;
        let e = entries[n - 1];
        let rel = path_below(prefix, e.name);
        let dir = dir_components(prefix);
        lemma_flat_distinct(objects, entries, m, prefix, depth);
        assert(!entries[n - 1].name.contains('/') && e.name.len() > 0);
        lemma_components_below(prefix, e.name);
        let start = dir.push(e.name);
        let more: Seq<FileEntryView> = list.skip(before.len() as int);
        assert(list =~= before + more);
        if e.is_dir() {
            let sub = entries_of(objects, e.id);
            assert(more =~= flat_tree(objects, e.id, rel, depth)->Ok_0);
            lemma_entries_of(objects, e.id);
            assert(well_named(objects, e.id, depth));
            lemma_flat_distinct(objects, sub, sub.len(), rel, (depth - 1) as nat);
            assert forall|k: int| 0 <= k < more.len() implies start.is_prefix_of(
                pieces((#[trigger] more[k]).rel, '/'),
            ) by {
                assert(below_some(sub, sub.len(), rel, more[k].rel));
                let p = pieces(more[k].rel, '/');
                let i = choose|i: int|
                    0 <= i < sub.len() && dir_components(rel).push(
                        (#[trigger] sub[i]).name,
                    ).is_prefix_of(p);
                let longer = dir_components(rel).push(sub[i].name);
                assert(longer =~= p.subrange(0, longer.len() as int));
                assert(start =~= longer.subrange(0, start.len() as int));
                assert(start =~= p.subrange(0, start.len() as int));
            }
        } else {
            assert(more.len() == 1 && more[0].rel == rel);
            assert(start =~= pieces(rel, '/').subrange(0, start.len() as int));
        }
        assert forall|k: int| 0 <= k < list.len() implies below_some(
            entries,
            n,
            prefix,
            (#[trigger] list[k]).rel,
        ) by {
            if k < before.len() {
                assert(list[k] == before[k]);
                assert(below_some(entries, m, prefix, before[k].rel));
                let i = choose|i: int|
                    0 <= i < m && dir.push((#[trigger] entries[i]).name).is_prefix_of(
                        pieces(before[k].rel, '/'),
                    );
                assert(dir.push(entries[i].name).is_prefix_of(pieces(list[k].rel, '/')));
            } else {
                assert(list[k] == more[k - before.len()]);
                assert(dir.push(entries[n - 1].name).is_prefix_of(pieces(list[k].rel, '/')));
            }
        }
        assert forall|x: int, y: int| 0 <= x < before.len() && 0 <= y < more.len() implies (
        #[trigger] before[x]).rel != (#[trigger] more[y]).rel by {
            assert(below_some(entries, m, prefix, before[x].rel));
            let p = pieces(before[x].rel, '/');
            let i = choose|i: int|
                0 <= i < m && dir.push((#[trigger] entries[i]).name).is_prefix_of(p);
            let one = dir.push(entries[i].name);
            if before[x].rel == more[y].rel {
                assert(start.is_prefix_of(p));
                assert(one[dir.len() as int] == p[dir.len() as int]) by {
                    assert(one =~= p.subrange(0, one.len() as int));
                    assert(one[dir.len() as int] == p.subrange(0, one.len() as int)[dir.len() as int]);
                }
                assert(start[dir.len() as int] == p[dir.len() as int]) by {
                    assert(start =~= p.subrange(0, start.len() as int));
                    assert(start[dir.len() as int] == p.subrange(0, start.len() as int)[dir.len() as int]);
                }
                assert(entries[i].name == entries[n - 1].name);
            }
        }
        assert forall|i: int, j: int|
            0 <= i < list.len() && 0 <= j < list.len() && (#[trigger] list[i]).rel == (
            #[trigger] list[j]).rel implies i == j by {
            let b = before.len() as int;
            if i < b && j < b {
                assert(before[i].rel == before[j].rel);
            } else if i >= b && j >= b {
                assert(more[i - b].rel == more[j - b].rel);
            } else if i < b {
                assert(before[i].rel != more[j - b].rel);
            } else {
                assert(before[j].rel != more[i - b].rel);
            }
        }
    }
}

/// The path lies at or below one of the first `n` names of a directory.
spec fn below_some(
    entries: Seq<TreeEntryView>,
    n: nat,
    prefix: Seq<char>,
    rel: Seq<char>,
) -> bool {
    exists|i: int|
        0 <= i < n && dir_components(prefix).push((#[trigger] entries[i]).name).is_prefix_of(
            pieces(rel, '/'),
        )
}

proof fn lemma_blobs_finite(objects: Map<Seq<char>, Seq<u8>>, work: Seq<LoadedView>)
    requires
        objects.dom().finite(),
    ensures
        blobs_stored(objects, work).0.dom().finite(),
    decreases work.len(),
{
    if work.len() > 0 {
        lemma_blobs_finite(objects, work.drop_last());
    }
}

proof fn lemma_subtrees_finite(objects: Map<Seq<char>, Seq<u8>>, d: Seq<EntryView>, n: nat)
    requires
        objects.dom().finite(),
    ensures
        subtrees_stored(objects, d, n).dom().finite(),
    decreases d, n,
{
    if n > 0 && n <= d.len() {
        lemma_subtrees_finite(objects, d, (n - 1) as nat);
        if let NodeView::Dir(sub) = d[n - 1].node {
            lemma_subtrees_finite(subtrees_stored(objects, d, (n - 1) as nat), sub, sub.len());
        }
    }
}

/// Taking a snapshot adds finitely many objects.
proof fn lemma_taken_finite(
    s: StoreView,
    work: Seq<LoadedView>,
    label: Seq<char>,
    agent: Seq<char>,
    wanted: Option<u64>,
    time: i64,
)
    requires
        s.objects.dom().finite(),
    ensures
        taken(s, work, label, agent, wanted, time).0.objects.dom().finite(),
{
    lemma_blobs_finite(s.objects, work);
    let (objects, b) = blobs_stored(s.objects, work);
    if let Ok(entries) = b {
        if let Ok(d) = grown_tree(entries, entries.len()) {
            lemma_subtrees_finite(objects, d, d.len());
            assert(tree_stored(objects, d).dom().finite());
        }
    }
}

/// What beginning a restore does to the store: it only grows, by finitely many
/// objects and one ref at most.
pub(crate) proof fn lemma_begun_store(
    s: StoreView,
    work: Seq<LoadedView>,
    hidden: Seq<LoadedView>,
    turn: u64,
    paths: Seq<Seq<char>>,
    force: bool,
    no_backup: bool,
    agent: Seq<char>,
    time: i64,
)
    requires
        s.objects.dom().finite(),
    ensures
        ({
            let after = begun(s, work, hidden, turn, paths, force, no_backup, agent, time).0;
            &&& extends(s.objects, after.objects)
            &&& after.objects.dom().finite()
            &&& s.refs.is_prefix_of(after.refs)
            &&& after.refs.len() <= s.refs.len() + 1
        }),
{
    let all = work + at_risk(s, s.snapshot(turn)->Ok_0, paths, hidden, hidden.len());
    law_restore_keeps_the_store(s, work, hidden, turn, paths, force, no_backup, agent, time);
    law_history_is_append_only(s, all, backup_label(turn), agent, None, time);
    lemma_taken_finite(s, all, backup_label(turn), agent, None, time);
}

/// The snapshot of a turn can be restored, as the store has it now and as it
/// has it once more was added: its files are listed alike, and are blobs that
/// can be read.
pub closed spec fn restorable(s: StoreView, turn: u64) -> bool {
    &&& s.snapshot(turn) is Ok
    &&& objects_sound(s.objects)
    &&& tree_complete(
        s.objects,
        kinds_of(s.objects),
        s.snapshot(turn)->Ok_0.tree,
        s.objects.len(),
    )
}

pub(crate) proof fn lemma_sound_turn_is_restorable(s: StoreView, turn: u64)
    requires
        store_sound(s),
        s.snapshot(turn) is Ok,
    ensures
        restorable(s, turn),
{
    lemma_recorded_is_listed(s, turn);
    let k = choose|k: int| 0 <= k < s.turns().len() && s.turns()[k] == turn;
    assert(turn_sound(s, kinds_of(s.objects), s.turns()[k]));
}

pub(crate) proof fn lemma_target_kept(s: StoreView, t: StoreView, turn: u64)
    requires
        restorable(s, turn),
        extends(s.objects, t.objects),
        t.objects.dom().finite(),
        s.refs.is_prefix_of(t.refs),
        t.refs.len() <= s.refs.len() + 1,
    ensures
        ({
            let tree = s.snapshot(turn)->Ok_0.tree;
            let files = snapshot_files(s.objects, tree);
            &&& t.snapshot(turn) == s.snapshot(turn)
            &&& files is Ok
            &&& snapshot_files(t.objects, tree) == files
            &&& files_readable(s, files->Ok_0)
            &&& files_readable(t, files->Ok_0)
            &&& forall|i: int|
                0 <= i < files->Ok_0.len() ==> entry_bytes(t, #[trigger] files->Ok_0[i])
                    == entry_bytes(s, files->Ok_0[i])
            &&& as_written(s.objects) ==> files_addressed(t, files->Ok_0)
            &&& well_named(s.objects, tree, s.objects.len()) ==> distinct_paths(files->Ok_0)
        }),
{
    let tree = s.snapshot(turn)->Ok_0.tree;
    let depth = s.objects.len();
    let none = Seq::<char>::empty();
    lemma_ref_kept(s, t, turn);
    let id = s.turn_id(turn)->Ok_0;
    assert(s.objects.contains_key(id));
    assert(s.objects.dom().subset_of(t.objects.dom())) by {
        assert forall|x: Seq<char>| s.objects.dom().contains(x) implies t.objects.dom().contains(
            x,
        ) by {
            assert(s.objects.contains_key(x));
        }
    }
    vstd::set_lib::lemma_len_subset(s.objects.dom(), t.objects.dom());
    lemma_flat_tree_kept(s.objects, t.objects, tree, none, depth, t.objects.len());
    let list = flat_tree(s.objects, tree, none, depth)->Ok_0;
    let files = snapshot_files(s.objects, tree)->Ok_0;
    law_sorted_by(list, |e: FileEntryView| e.rel);
    assert forall|i: int| 0 <= i < files.len() implies blob_kept(
        s.objects,
        t.objects,
        (#[trigger] files[i]).id,
    ) by {
        assert(files.contains(files[i]));
        assert(list.contains(files[i]));
    }
    assert forall|i: int| 0 <= i < files.len() implies fetched(
        t.objects,
        (#[trigger] files[i]).id,
    ) == Ok::<(Kind, Seq<u8>), Seq<char>>((Kind::Blob, entry_bytes(t, files[i]))) by {
        assert(blob_kept(s.objects, t.objects, files[i].id));
    }
    assert forall|i: int| 0 <= i < files.len() implies fetched(
        s.objects,
        (#[trigger] files[i]).id,
    ) == Ok::<(Kind, Seq<u8>), Seq<char>>((Kind::Blob, entry_bytes(s, files[i]))) by {
        assert(blob_kept(s.objects, t.objects, files[i].id));
    }
    assert forall|i: int| 0 <= i < files.len() implies entry_bytes(t, #[trigger] files[i])
        == entry_bytes(s, files[i]) by {
        assert(blob_kept(s.objects, t.objects, files[i].id));
    }
    if as_written(s.objects) {
        assert forall|i: int| 0 <= i < files.len() implies object_id(
            Kind::Blob,
            entry_bytes(t, #[trigger] files[i]),
        ) == files[i].id by {
            assert(blob_kept(s.objects, t.objects, files[i].id));
            assert(s.objects.contains_key(files[i].id));
        }
    }
    if well_named(s.objects, tree, depth) {
        let entries = entries_of(s.objects, tree);
        lemma_entries_of(s.objects, tree);
        lemma_flat_distinct(s.objects, entries, entries.len(), none, (depth - 1) as nat);
        lemma_sorted_distinct(list);
    }
}

/// A full restore, from its beginning to its end. The store is sound, and no
/// rule hides a file of the target. `work` is the first walk; `found` is the
/// walk after the files were written; `left` is a walk after the deletions.
/// Then every file can be settled. As many are written as the target has files
/// that were absent before or differed in bytes or exec bit. As many are
/// deleted as the first walk listed that the target lacks. And no change is
/// left against the target turn.
///
/// The number written is that of the target's files where no tree repeats a
/// name. A blob whose length is stored in another form than it is written in
/// has another id than its content gives, so a comparison never finds it
/// unchanged.
#[verifier::rlimit(30)]
pub proof fn law_full_restore(
    s: StoreView,
    work: Seq<LoadedView>,
    hidden: Seq<LoadedView>,
    turn: u64,
    force: bool,
    no_backup: bool,
    agent: Seq<char>,
    time: i64,
    disk: Map<Seq<char>, (Seq<u8>, bool)>,
    visible: spec_fn(Seq<char>) -> bool,
    found: Seq<WorkFileView>,
    left: Seq<LoadedView>,
)
    requires
        store_sound(s),
        s.objects.dom().finite(),
        begun(s, work, hidden, turn, Seq::empty(), force, no_backup, agent, time).1 is Ok,
        loads_disk(work, disk, visible),
        ({
            let (after, r) = begun(
                s,
                work,
                hidden,
                turn,
                Seq::empty(),
                force,
                no_backup,
                agent,
                time,
            );
            let plan = r->Ok_0;
            &&& forall|i: int| 0 <= i < plan.all.len() ==> visible((#[trigger] plan.all[i]).rel)
            &&& lists_disk(found, written_disk(after, plan, disk), visible)
            &&& loads_disk(left, restored_disk(after, plan, disk, found), visible)
        }),
    ensures
        ({
            let (after, r) = begun(
                s,
                work,
                hidden,
                turn,
                Seq::empty(),
                force,
                no_backup,
                agent,
                time,
            );
            let plan = r->Ok_0;
            let tree = s.snapshot(turn)->Ok_0.tree;
            let run = settled_run(after, plan, disk, plan.selected.len());
            &&& snapshot_files(s.objects, tree) == Ok::<Seq<FileEntryView>, Seq<char>>(plan.all)
            &&& run is Ok
            &&& run->Ok_0.0 == written_disk(after, plan, disk)
            &&& well_named(s.objects, tree, s.objects.len()) ==> run->Ok_0.1 == differing(
                after,
                disk,
                plan.all,
                plan.all.len(),
            )
            &&& surplus(plan, found, found.len()).len() == lacking(plan.all, work, work.len())
            &&& after.snapshot(turn) == s.snapshot(turn)
            &&& as_written(s.objects) ==> tree_changes(after, left, tree) == Ok::<
                ChangesView,
                Seq<char>,
            >(no_difference())
        }),
{
    let none = Seq::<Seq<char>>::empty();
    let (after, r) = begun(s, work, hidden, turn, none, force, no_backup, agent, time);
    let plan = r->Ok_0;
    let tree = s.snapshot(turn)->Ok_0.tree;
    law_full_plan_covers_the_target(s, work, hidden, turn, force, no_backup, agent, time);
    lemma_begun_store(s, work, hidden, turn, none, force, no_backup, agent, time);
    lemma_sound_turn_is_restorable(s, turn);
    lemma_target_kept(s, after, turn);
    lemma_in_full(after, plan, work, disk, visible);
    lemma_settled_run(after, plan, disk, visible, plan.all.len());
    lemma_deletions(after, plan, disk, visible, work, found);
    if as_written(s.objects) {
        lemma_no_change_left(after, tree, plan, disk, visible, found, left);
    }
}

proof fn lemma_in_full(
    s: StoreView,
    plan: PlanView,
    work: Seq<LoadedView>,
    disk: Map<Seq<char>, (Seq<u8>, bool)>,
    visible: spec_fn(Seq<char>) -> bool,
)
    requires
        plan.full,
        plan.selected == plan.all,
        files_readable(s, plan.all),
        forall|i: int| 0 <= i < plan.all.len() ==> visible((#[trigger] plan.all[i]).rel),
        forall|rel: Seq<char>| has_path(work, rel) ==> #[trigger] plan.may_replace(rel),
        loads_disk(work, disk, visible),
    ensures
        in_full(s, plan, disk, visible),
{
    assert forall|rel: Seq<char>| #[trigger] disk.contains_key(rel) && visible(
        rel,
    ) implies plan.may_replace(rel) by {
        assert(has_path(work, rel));
    }
}

/// A disk that has the files is not changed by writing them.
proof fn lemma_writes_change_nothing(
    s: StoreView,
    disk: Map<Seq<char>, (Seq<u8>, bool)>,
    files: Seq<FileEntryView>,
    n: nat,
)
    requires
        n <= files.len(),
        forall|i: int|
            0 <= i < files.len() ==> disk.contains_key((#[trigger] files[i]).rel)
                && disk[files[i].rel] == (entry_bytes(s, files[i]), files[i].executable),
    ensures
        after_writes(s, disk, files, n) == disk,
        differing(s, disk, files, n) == 0,
    decreases n,
{
    if n > 0 {
        lemma_writes_change_nothing(s, disk, files, (n - 1) as nat);
        let e = files[n - 1];
        assert(disk.contains_key(e.rel));
        assert(after_writes(s, disk, files, n) =~= disk);
    }
}

proof fn lemma_nothing_lacking(
    all: Seq<FileEntryView>,
    work: Seq<LoadedView>,
    n: nat,
)
    requires
        n <= work.len(),
        forall|i: int| 0 <= i < work.len() ==> last_index(all, (#[trigger] work[i]).rel) >= 0,
    ensures
        lacking(all, work, n) == 0,
    decreases n,
{
    if n > 0 {
        lemma_nothing_lacking(all, work, (n - 1) as nat);
        assert(last_index(all, work[n - 1].rel) >= 0);
    }
}

/// A second full restore to the same turn, begun on what the first one left,
/// writes nothing, deletes nothing and leaves the disk as it is. (Where a tree
/// repeats a name, its files would be written over each other again.)
#[verifier::rlimit(30)]
pub proof fn law_second_full_restore_does_nothing(
    s: StoreView,
    work: Seq<LoadedView>,
    hidden: Seq<LoadedView>,
    turn: u64,
    force: bool,
    no_backup: bool,
    agent: Seq<char>,
    time: i64,
    disk: Map<Seq<char>, (Seq<u8>, bool)>,
    visible: spec_fn(Seq<char>) -> bool,
    found: Seq<WorkFileView>,
    left: Seq<LoadedView>,
    hidden2: Seq<LoadedView>,
    force2: bool,
    no_backup2: bool,
    agent2: Seq<char>,
    time2: i64,
    found2: Seq<WorkFileView>,
)
    requires
        store_sound(s),
        s.objects.dom().finite(),
        begun(s, work, hidden, turn, Seq::empty(), force, no_backup, agent, time).1 is Ok,
        well_named(s.objects, s.snapshot(turn)->Ok_0.tree, s.objects.len()),
        loads_disk(work, disk, visible),
        ({
            let (after, r) = begun(
                s,
                work,
                hidden,
                turn,
                Seq::empty(),
                force,
                no_backup,
                agent,
                time,
            );
            let plan = r->Ok_0;
            let end = restored_disk(after, plan, disk, found);
            let (after2, r2) = begun(
                after,
                left,
                hidden2,
                turn,
                Seq::empty(),
                force2,
                no_backup2,
                agent2,
                time2,
            );
            &&& forall|i: int| 0 <= i < plan.all.len() ==> visible((#[trigger] plan.all[i]).rel)
            &&& lists_disk(found, written_disk(after, plan, disk), visible)
            &&& loads_disk(left, end, visible)
            &&& r2 is Ok
            &&& lists_disk(found2, written_disk(after2, r2->Ok_0, end), visible)
        }),
    ensures
        ({
            let (after, r) = begun(
                s,
                work,
                hidden,
                turn,
                Seq::empty(),
                force,
                no_backup,
                agent,
                time,
            );
            let plan = r->Ok_0;
            let end = restored_disk(after, plan, disk, found);
            let (after2, r2) = begun(
                after,
                left,
                hidden2,
                turn,
                Seq::empty(),
                force2,
                no_backup2,
                agent2,
                time2,
            );
            let plan2 = r2->Ok_0;
            &&& settled_run(after2, plan2, end, plan2.selected.len()) == Ok::<
                (Map<Seq<char>, (Seq<u8>, bool)>, nat),
                Seq<char>,
            >((end, 0))
            &&& surplus(plan2, found2, found2.len()).len() == 0
        }),
{
    let none = Seq::<Seq<char>>::empty();
    let (after, r) = begun(s, work, hidden, turn, none, force, no_backup, agent, time);
    let plan = r->Ok_0;
    let end = restored_disk(after, plan, disk, found);
    let (after2, r2) = begun(
        after,
        left,
        hidden2,
        turn,
        none,
        force2,
        no_backup2,
        agent2,
        time2,
    );
    let plan2 = r2->Ok_0;
    law_full_plan_covers_the_target(s, work, hidden, turn, force, no_backup, agent, time);
    law_full_plan_covers_the_target(
        after,
        left,
        hidden2,
        turn,
        force2,
        no_backup2,
        agent2,
        time2,
    );
    lemma_begun_store(s, work, hidden, turn, none, force, no_backup, agent, time);
    lemma_begun_store(after, left, hidden2, turn, none, force2, no_backup2, agent2, time2);
    lemma_sound_turn_is_restorable(s, turn);
    lemma_target_kept(s, after, turn);
    lemma_in_full(after, plan, work, disk, visible);
    lemma_listing_kept_twice(s, after, after2, turn);
    lemma_in_full(after2, plan2, left, end, visible);
    assert forall|i: int| 0 <= i < plan2.all.len() implies end.contains_key(
        (#[trigger] plan2.all[i]).rel,
    ) && end[plan2.all[i].rel] == (entry_bytes(after2, plan2.all[i]), plan2.all[i].executable) by {
        let rel = plan.all[i].rel;
        lemma_last_index(plan.all, rel);
        assert(plan.all[last_index(plan.all, rel)].rel == plan.all[i].rel);
        lemma_restored_disk(after, plan, disk, visible, found, rel);
    }
    lemma_settled_run(after2, plan2, end, visible, plan2.all.len());
    lemma_writes_change_nothing(after2, end, plan2.all, plan2.all.len());
    assert forall|i: int| 0 <= i < left.len() implies last_index(
        plan2.all,
        (#[trigger] left[i]).rel,
    ) >= 0 by {
        lemma_restored_disk(after, plan, disk, visible, found, left[i].rel);
        lemma_last_index(plan.all, left[i].rel);
    }
    lemma_nothing_lacking(plan2.all, left, left.len());
    lemma_deletions(after2, plan2, end, visible, left, found2);
}

/// The files of a turn are listed alike, with the same bytes, after the store
/// has grown twice.
proof fn lemma_listing_kept_twice(s: StoreView, t: StoreView, u: StoreView, turn: u64)
    requires
        restorable(s, turn),
        t.snapshot(turn) == s.snapshot(turn),
        extends(s.objects, t.objects),
        extends(t.objects, u.objects),
        u.objects.dom().finite(),
        t.objects.dom().finite(),
    ensures
        ({
            let tree = s.snapshot(turn)->Ok_0.tree;
            let files = snapshot_files(s.objects, tree);
            &&& files is Ok
            &&& snapshot_files(u.objects, tree) == files
            &&& files_readable(u, files->Ok_0)
            &&& forall|i: int|
                0 <= i < files->Ok_0.len() ==> entry_bytes(u, #[trigger] files->Ok_0[i])
                    == entry_bytes(t, files->Ok_0[i])
        }),
{
    assert(extends(s.objects, u.objects)) by {
        assert forall|id: Seq<char>| #[trigger] s.objects.contains_key(
            id,
        ) implies u.objects.contains_key(id) && u.objects[id] == s.objects[id] by {
            assert(t.objects.contains_key(id));
        }
    }
    let t2 = StoreView { refs: s.refs, ..t };
    let u2 = StoreView { refs: s.refs, ..u };
    assert(s.refs =~= s.refs.subrange(0, s.refs.len() as int));
    lemma_target_kept(s, t2, turn);
    lemma_target_kept(s, u2, turn);
    let files = snapshot_files(s.objects, s.snapshot(turn)->Ok_0.tree)->Ok_0;
    assert forall|i: int| 0 <= i < files.len() implies fetched(
        u.objects,
        (#[trigger] files[i]).id,
    ) == Ok::<(Kind, Seq<u8>), Seq<char>>((Kind::Blob, entry_bytes(u, files[i]))) by {
        assert(entry_bytes(u, files[i]) == entry_bytes(u2, files[i]));
        assert(fetched(u2.objects, files[i].id) is Ok);
    }
    assert forall|i: int| 0 <= i < files.len() implies entry_bytes(u, #[trigger] files[i])
        == entry_bytes(t, files[i]) by {
        assert(entry_bytes(u, files[i]) == entry_bytes(u2, files[i]));
        assert(entry_bytes(t, files[i]) == entry_bytes(t2, files[i]));
        assert(entry_bytes(t2, files[i]) == entry_bytes(s, files[i]));
        assert(entry_bytes(u2, files[i]) == entry_bytes(s, files[i]));
    }
}

} // verus!
