//! A restore destroys nothing that cannot be had back: whatever stands on the
//! disk before it still stands there afterwards, or a snapshot holds it.

use vstd::prelude::*;

use crate::guard::{at_risk, snapped, touched, turn_holds};
use crate::object::{fetched, object_id, Kind};
use crate::picking::lemma_run_writes;
use crate::readback::{recordable, work_held};
use crate::restoration::{
    lemma_begun_store, lemma_sound_turn_is_restorable, lemma_target_kept,
};
use crate::restore::{
    after_deletes, backup_label, begun, due, entry_bytes, found_at, law_restore_keeps_unsaved_work,
    lemma_after_deletes, lemma_after_writes, lemma_surplus, selected_by, selection, settled_run,
    surplus, PlanView,
};
use crate::snapshot::{
    last_index, lemma_last_index, snapshot_file, snapshot_files, taken, FileEntryView, LoadedView,
};
use crate::soundness::store_sound;
use crate::store::StoreView;
use crate::walker::WorkFileView;

verus! {

/// The snapshot of some turn has a file with the bytes: under the id that they
/// have, or as what its id leads to.
pub open spec fn in_some_snapshot(s: StoreView, bytes: Seq<u8>) -> bool {
    exists|t: u64, k: int|
        #![trigger snapshot_files(s.objects, s.snapshot(t)->Ok_0.tree)->Ok_0[k]]
        {
            let files = snapshot_files(s.objects, s.snapshot(t)->Ok_0.tree);
            &&& s.snapshot(t) is Ok
            &&& files is Ok
            &&& 0 <= k < files->Ok_0.len()
            &&& files->Ok_0[k].id == object_id(Kind::Blob, bytes) || fetched(
                s.objects,
                files->Ok_0[k].id,
            ) == Ok::<(Kind, Seq<u8>), Seq<char>>((Kind::Blob, bytes))
        }
}

/// The files were read from the disk.
pub open spec fn read_from(
    list: Seq<LoadedView>,
    disk: Map<Seq<char>, (Seq<u8>, bool)>,
) -> bool {
    forall|i: int|
        0 <= i < list.len() && disk.contains_key((#[trigger] list[i]).rel) ==> list[i].data == Ok::<
            Seq<u8>,
            Seq<char>,
        >(disk[list[i].rel].0) && list[i].executable == disk[list[i].rel].1
}

/// The disk at the end of a restore whose run came to `written` and whose second
/// walk found `found`.
pub open spec fn disk_after(
    plan: PlanView,
    written: Map<Seq<char>, (Seq<u8>, bool)>,
    found: Seq<WorkFileView>,
) -> Map<Seq<char>, (Seq<u8>, bool)> {
    if plan.full {
        let doomed = surplus(plan, found, found.len());
        after_deletes(written, doomed, doomed.len())
    } else {
        written
    }
}

proof fn lemma_snapped(s: StoreView, bytes: Seq<u8>)
    requires
        snapped(s, object_id(Kind::Blob, bytes)),
    ensures
        in_some_snapshot(s, bytes),
{
    let id = object_id(Kind::Blob, bytes);
    let i = choose|i: int| 0 <= i < s.turns().len() && turn_holds(s, #[trigger] s.turns()[i], id);
    let t = s.turns()[i];
    let files = snapshot_files(s.objects, s.snapshot(t)->Ok_0.tree)->Ok_0;
    let j = choose|j: int| 0 <= j < files.len() && (#[trigger] files[j]).id == id;
    assert(files[j].id == id);
}

/// Where an entry could not be overwritten, the first one at its path stood
/// there already.
proof fn lemma_first_stands(
    s: StoreView,
    plan: PlanView,
    disk: Map<Seq<char>, (Seq<u8>, bool)>,
    rel: Seq<char>,
    n: nat,
)
    requires
        n <= plan.selected.len(),
        settled_run(s, plan, disk, n) is Ok,
        disk.contains_key(rel),
        !plan.may_replace(rel),
        last_index(plan.selected.take(n as int), rel) >= 0,
    ensures
        exists|k: int|
            0 <= k < n && (#[trigger] plan.selected[k]).rel == rel && fetched(
                s.objects,
                plan.selected[k].id,
            ) == Ok::<(Kind, Seq<u8>), Seq<char>>((Kind::Blob, disk[rel].0)),
    decreases n,
{
    let m = (n - 1) as nat;
    let head = plan.selected.take(m as int);
    let part = plan.selected.take(n as int);
    assert(part.drop_last() =~= head);
    if last_index(head, rel) >= 0 {
        lemma_first_stands(s, plan, disk, rel, m);
        let k = choose|k: int|
            0 <= k < m && (#[trigger] plan.selected[k]).rel == rel && fetched(
                s.objects,
                plan.selected[k].id,
            ) == Ok::<(Kind, Seq<u8>), Seq<char>>((Kind::Blob, disk[rel].0));
        assert(plan.selected[k].rel == rel);
    } else {
        let e = plan.selected[n - 1];
        lemma_last_index(part, rel);
        lemma_last_index(head, rel);
        assert(e.rel == rel);
        lemma_run_writes(s, plan, disk, m);
        lemma_after_writes(s, disk, plan.selected, m, rel);
        let now = settled_run(s, plan, disk, m)->Ok_0.0;
        assert(now.contains_key(rel) && now[rel] == disk[rel]);
        assert(!plan.may_write(rel, n - 1)) by {
            if plan.may_write(rel, n - 1) {
                let j = choose|j: int| 0 <= j < n - 1 && (#[trigger] plan.selected[j]).rel == rel;
                assert(head[j].rel == rel);
            }
        }
        assert(due(s, e, found_at(now, rel), false) is Ok);
        assert(plan.selected[n - 1].rel == rel);
    }
}

/// A restore destroys nothing. Whatever file stands on the disk before it, told
/// to the restore or not, listed by the walk or hidden: once the restore is
/// carried out, the file stands there with the same bytes, or some snapshot that
/// there was has its bytes, or the backup turn has it at its path with its bytes
/// and exec bit; unless both `no_backup` and `force` were given.
pub proof fn law_restore_destroys_nothing(
    s: StoreView,
    work: Seq<LoadedView>,
    hidden: Seq<LoadedView>,
    turn: u64,
    paths: Seq<Seq<char>>,
    force: bool,
    no_backup: bool,
    agent: Seq<char>,
    time: i64,
    disk: Map<Seq<char>, (Seq<u8>, bool)>,
    found: Seq<WorkFileView>,
    rel: Seq<char>,
)
    requires
        store_sound(s),
        s.objects.dom().finite(),
        disk.contains_key(rel),
        read_from(work, disk),
        read_from(hidden, disk),
        begun(s, work, hidden, turn, paths, force, no_backup, agent, time).1 is Ok,
        ({
            let (after, r) = begun(s, work, hidden, turn, paths, force, no_backup, agent, time);
            let plan = r->Ok_0;
            let all = work + at_risk(s, s.snapshot(turn)->Ok_0, paths, hidden, hidden.len());
            &&& plan.backup is Some ==> recordable(all) && work_held(after.objects, all)
            &&& settled_run(after, plan, disk, plan.selected.len()) is Ok
        }),
    ensures
        ({
            let (after, r) = begun(s, work, hidden, turn, paths, force, no_backup, agent, time);
            let plan = r->Ok_0;
            let written = settled_run(after, plan, disk, plan.selected.len())->Ok_0.0;
            let end = disk_after(plan, written, found);
            let all = work + at_risk(s, s.snapshot(turn)->Ok_0, paths, hidden, hidden.len());
            let backup = taken(s, all, backup_label(turn), agent, None, time).1;
            ||| no_backup && force
            ||| end.contains_key(rel) && end[rel].0 == disk[rel].0
            ||| in_some_snapshot(s, disk[rel].0)
            ||| {
                &&& backup is Ok
                &&& plan.backup == Some(backup->Ok_0.turn)
                &&& snapshot_file(after.objects, backup->Ok_0.tree, rel) == Ok::<
                    Option<(Seq<u8>, bool)>,
                    Seq<char>,
                >(Some((disk[rel].0, disk[rel].1)))
            }
        }),
{
    let (after, r) = begun(s, work, hidden, turn, paths, force, no_backup, agent, time);
    let plan = r->Ok_0;
    let target = s.snapshot(turn)->Ok_0;
    lemma_begun_store(s, work, hidden, turn, paths, force, no_backup, agent, time);
    lemma_sound_turn_is_restorable(s, turn);
    lemma_target_kept(s, after, turn);
    let files = snapshot_files(s.objects, target.tree)->Ok_0;
    assert(plan.all == files);
    if !(no_backup && force) {
        if exists|i: int| 0 <= i < work.len() && (#[trigger] work[i]).rel == rel {
            let i = choose|i: int| 0 <= i < work.len() && (#[trigger] work[i]).rel == rel;
            lemma_told(s, work, hidden, turn, paths, force, no_backup, agent, time, work[i]);
        } else if exists|i: int| 0 <= i < hidden.len() && (#[trigger] hidden[i]).rel == rel {
            let i = choose|i: int| 0 <= i < hidden.len() && (#[trigger] hidden[i]).rel == rel;
            let f = hidden[i];
            assert(!work.contains(f)) by {
                if work.contains(f) {
                    let j = choose|j: int| 0 <= j < work.len() && work[j] == f;
                    assert(work[j].rel == rel);
                }
            }
            lemma_told(s, work, hidden, turn, paths, force, no_backup, agent, time, f);
            if !touched(s, target, paths, rel) {
                lemma_untouched(after, plan, disk, files, paths, rel);
            }
        } else {
            assert(!plan.may_replace(rel));
            lemma_unseen(after, plan, disk, found, rel);
            let n = plan.selected.len();
            assert(plan.selected.take(n as int) =~= plan.selected);
            if last_index(plan.selected, rel) >= 0 {
                lemma_first_stands(after, plan, disk, rel, n);
                let k = choose|k: int|
                    0 <= k < n && (#[trigger] plan.selected[k]).rel == rel && fetched(
                        after.objects,
                        plan.selected[k].id,
                    ) == Ok::<(Kind, Seq<u8>), Seq<char>>((Kind::Blob, disk[rel].0));
                lemma_selected_is_listed(files, paths, plan, k);
                let m = choose|m: int| 0 <= m < files.len() && files[m] == plan.selected[k];
                assert(entry_bytes(after, files[m]) == entry_bytes(s, files[m]));
                assert(snapshot_files(s.objects, s.snapshot(turn)->Ok_0.tree)->Ok_0[m].id
                    == plan.selected[k].id);
            }
        }
    }
}

proof fn lemma_told(
    s: StoreView,
    work: Seq<LoadedView>,
    hidden: Seq<LoadedView>,
    turn: u64,
    paths: Seq<Seq<char>>,
    force: bool,
    no_backup: bool,
    agent: Seq<char>,
    time: i64,
    f: LoadedView,
)
    requires
        !(no_backup && force),
        begun(s, work, hidden, turn, paths, force, no_backup, agent, time).1 is Ok,
        work.contains(f) || hidden.contains(f),
        f.data is Ok,
        ({
            let (after, r) = begun(s, work, hidden, turn, paths, force, no_backup, agent, time);
            let all = work + at_risk(s, s.snapshot(turn)->Ok_0, paths, hidden, hidden.len());
            r->Ok_0.backup is Some ==> recordable(all) && work_held(after.objects, all)
        }),
    ensures
        ({
            let (after, r) = begun(s, work, hidden, turn, paths, force, no_backup, agent, time);
            let target = s.snapshot(turn)->Ok_0;
            let bytes = f.data->Ok_0;
            let all = work + at_risk(s, target, paths, hidden, hidden.len());
            let backup = taken(s, all, backup_label(turn), agent, None, time).1;
            ||| !work.contains(f) && !touched(s, target, paths, f.rel)
            ||| in_some_snapshot(s, bytes)
            ||| {
                &&& backup is Ok
                &&& r->Ok_0.backup == Some(backup->Ok_0.turn)
                &&& snapshot_file(after.objects, backup->Ok_0.tree, f.rel) == Ok::<
                    Option<(Seq<u8>, bool)>,
                    Seq<char>,
                >(Some((bytes, f.executable)))
            }
        }),
{
    law_restore_keeps_unsaved_work(
        s,
        work,
        hidden,
        turn,
        paths,
        force,
        no_backup,
        agent,
        time,
        f,
    );
    if snapped(s, object_id(Kind::Blob, f.data->Ok_0)) {
        lemma_snapped(s, f.data->Ok_0);
    }
}

proof fn lemma_untouched(
    s: StoreView,
    plan: PlanView,
    disk: Map<Seq<char>, (Seq<u8>, bool)>,
    files: Seq<FileEntryView>,
    paths: Seq<Seq<char>>,
    rel: Seq<char>,
)
    requires
        !plan.full,
        plan.selected == selection(files, paths, files.len()),
        !(selected_by(paths, rel) && last_index(files, rel) >= 0),
        settled_run(s, plan, disk, plan.selected.len()) is Ok,
        disk.contains_key(rel),
    ensures
        ({
            let end = settled_run(s, plan, disk, plan.selected.len())->Ok_0.0;
            end.contains_key(rel) && end[rel] == disk[rel]
        }),
{
    lemma_run_writes(s, plan, disk, plan.selected.len());
    lemma_last_index(files, rel);
    crate::restore::law_scoped_restore_touches_selected_paths(s, files, paths, disk, rel);
}

proof fn lemma_unseen(
    s: StoreView,
    plan: PlanView,
    disk: Map<Seq<char>, (Seq<u8>, bool)>,
    found: Seq<WorkFileView>,
    rel: Seq<char>,
)
    requires
        !plan.may_replace(rel),
        settled_run(s, plan, disk, plan.selected.len()) is Ok,
        disk.contains_key(rel),
    ensures
        last_index(plan.selected, rel) < 0 ==> {
            let written = settled_run(s, plan, disk, plan.selected.len())->Ok_0.0;
            let end = disk_after(plan, written, found);
            end.contains_key(rel) && end[rel] == disk[rel]
        },
{
    let n = plan.selected.len();
    let written = settled_run(s, plan, disk, n)->Ok_0.0;
    lemma_run_writes(s, plan, disk, n);
    lemma_after_writes(s, disk, plan.selected, n, rel);
    assert(plan.selected.take(n as int) =~= plan.selected);
    let doomed = surplus(plan, found, found.len());
    lemma_surplus(plan, found, found.len(), rel);
    lemma_after_deletes(written, doomed, doomed.len(), rel);
}

proof fn lemma_selected_is_listed(
    files: Seq<FileEntryView>,
    paths: Seq<Seq<char>>,
    plan: PlanView,
    k: int,
)
    requires
        0 <= k < plan.selected.len(),
        plan.selected == if paths.len() == 0 {
            files
        } else {
            selection(files, paths, files.len())
        },
    ensures
        files.contains(plan.selected[k]),
{
    let e = plan.selected[k];
    assert(plan.selected.contains(e));
    if paths.len() > 0 {
        crate::picking::lemma_selection_members(files, paths, files.len(), e);
        assert(files.take(files.len() as int) =~= files);
    }
}

} // verus!
