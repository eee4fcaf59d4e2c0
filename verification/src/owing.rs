//! When an answer is owed: what has to be there for a command to succeed, and
//! with which code it fails where it is not.

use vstd::prelude::*;

use crate::args::LogOptions;
use crate::blame::{path_versions, versions_in};
use crate::cli::Side;
use crate::commands::{log_output, newest_first, snapshots_of, status_output};
use crate::compare::{
    diff_output, diff_upto, path_entry, side_bytes, side_file, side_files, SideFileView,
};
use crate::decimal::{law_numeral_reads_back, numeral};
use crate::diff::binary;
use crate::guard::at_risk;
use crate::inspect::{blame_output, show_output, turn_with_id};
use crate::listing::distinct_paths;
use crate::object::fetched;
use crate::picking::{at_or_below, lemma_selection_members};
use crate::readback::{
    before_record, law_grown_tree_has_its_files, lemma_blobs_stored, recordable, work_entries,
};
use crate::reporting::{
    ascending_paths, file_paths, lemma_changed_paths, unlike, work_paths,
};
use crate::restore::{backup_label, begun, compared, selection, tree_changes};
use crate::snapshot::{
    last_index, lemma_last_index, next_number, snapshot_file, snapshot_files, stats_of_new,
    stats_of_old, taken, FileEntryView, LoadedView,
};
use crate::store::{law_later_turn_is_free, StoreView};
use crate::writing::law_turns_are_numbered_in_a_row;

verus! {

/// Every recorded turn has a snapshot that can be read.
pub open spec fn turns_read(s: StoreView) -> bool {
    forall|i: int| 0 <= i < s.turns().len() ==> s.snapshot(#[trigger] s.turns()[i]) is Ok
}

/// The files of the working tree could be read.
pub open spec fn work_reads(work: Seq<LoadedView>) -> bool {
    forall|i: int| 0 <= i < work.len() ==> (#[trigger] work[i]).data is Ok
}

/// The snapshot of a turn and the list of its files can be read.
pub open spec fn turn_lists(s: StoreView, turn: u64) -> bool {
    s.snapshot(turn) is Ok && snapshot_files(s.objects, s.snapshot(turn)->Ok_0.tree) is Ok
}

proof fn lemma_snapshots_of(s: StoreView, turns: Seq<u64>, n: nat)
    requires
        n <= turns.len(),
        forall|i: int| 0 <= i < turns.len() ==> s.snapshot(#[trigger] turns[i]) is Ok,
    ensures
        snapshots_of(s, turns, n) is Ok,
    decreases n,
{
    if n > 0 {
        lemma_snapshots_of(s, turns, (n - 1) as nat);
        assert(s.snapshot(turns[n - 1]) is Ok);
    }
}

/// `log` lists a store whose turns can be read, and fails with code one if at all.
pub proof fn law_log_answers(s: StoreView, o: LogOptions)
    ensures
        turns_read(s) ==> log_output(s, o) is Ok,
        log_output(s, o) matches Err(f) ==> f.code == 1,
{
    if turns_read(s) {
        let turns = newest_first(s.turns(), o.limit);
        assert forall|i: int| 0 <= i < turns.len() implies s.snapshot(#[trigger] turns[i]) is Ok by {
            assert(turns[i] == s.turns()[s.turns().len() - 1 - i]);
        }
        lemma_snapshots_of(s, turns, turns.len());
    }
}

proof fn lemma_compared_reads(
    files: Seq<FileEntryView>,
    work: Seq<LoadedView>,
    n: nat,
)
    requires
        n <= work.len(),
        work_reads(work),
    ensures
        compared(files, work, n) is Ok,
    decreases n,
{
    if n > 0 {
        lemma_compared_reads(files, work, (n - 1) as nat);
        assert(work[n - 1].data is Ok);
    }
}

/// `status` compares a working tree that could be read with a latest turn that
/// can be read, and fails with code one where there is no turn.
pub proof fn law_status_answers(s: StoreView, work: Seq<LoadedView>, json: bool)
    ensures
        s.latest() matches Some(l) && turn_lists(s, l) && work_reads(work) ==> status_output(
            s,
            work,
            json,
        ) is Ok,
        s.latest() is None ==> status_output(s, work, json) is Err,
        status_output(s, work, json) matches Err(f) ==> f.code == 1,
{
    if work_reads(work) && s.latest() is Some && turn_lists(s, s.latest()->0) {
        let files = snapshot_files(s.objects, s.snapshot(s.latest()->0)->Ok_0.tree)->Ok_0;
        lemma_compared_reads(files, work, work.len());
    }
}

/// The file at the path can be read in the turn, and is text, if the turn has it.
pub open spec fn text_in(s: StoreView, turn: u64, rel: Seq<char>) -> bool {
    &&& s.snapshot(turn) is Ok
    &&& match snapshot_file(s.objects, s.snapshot(turn)->Ok_0.tree, rel) {
        Ok(Some((bytes, _))) => !binary(bytes),
        Ok(None) => true,
        Err(_) => false,
    }
}

/// The turn has a file at the path.
pub open spec fn present_in(s: StoreView, turn: u64, rel: Seq<char>) -> bool {
    s.snapshot(turn) is Ok && snapshot_file(
        s.objects,
        s.snapshot(turn)->Ok_0.tree,
        rel,
    ) matches Ok(Some(_))
}

/// The turn counts for a question that goes up to `at`.
pub open spec fn counts(at: Option<u64>, turn: u64) -> bool {
    match at {
        Some(cap) => turn <= cap,
        None => true,
    }
}

proof fn lemma_versions(s: StoreView, rel: Seq<char>, at: Option<u64>, turns: Seq<u64>, n: nat)
    requires
        n <= turns.len(),
        forall|i: int|
            0 <= i < turns.len() && counts(at, #[trigger] turns[i]) ==> text_in(s, turns[i], rel),
    ensures
        versions_in(s, rel, at, turns, n) is Ok,
        versions_in(s, rel, at, turns, n)->Ok_0.len() > 0 <==> exists|i: int|
            0 <= i < n && counts(at, #[trigger] turns[i]) && present_in(s, turns[i], rel),
    decreases n,
{
    if n > 0 {
        lemma_versions(s, rel, at, turns, (n - 1) as nat);
        let t = turns[n - 1];
        if counts(at, t) {
            assert(text_in(s, t, rel));
        }
        let before = versions_in(s, rel, at, turns, (n - 1) as nat)->Ok_0;
        let now = versions_in(s, rel, at, turns, n)->Ok_0;
        if now.len() > 0 {
            if before.len() > 0 {
                let i = choose|i: int|
                    0 <= i < n - 1 && counts(at, #[trigger] turns[i]) && present_in(
                        s,
                        turns[i],
                        rel,
                    );
                assert(counts(at, turns[i]) && present_in(s, turns[i], rel));
            } else {
                assert(counts(at, turns[n - 1]) && present_in(s, turns[n - 1], rel));
            }
        }
        if exists|i: int|
            0 <= i < n && counts(at, #[trigger] turns[i]) && present_in(s, turns[i], rel) {
            let i = choose|i: int|
                0 <= i < n && counts(at, #[trigger] turns[i]) && present_in(s, turns[i], rel);
            if i < n - 1 {
                assert(counts(at, turns[i]) && present_in(s, turns[i], rel));
            }
        }
    }
}

/// Where the path is text in every turn that has it, `blame` answers: of the
/// working tree exactly where there is a text file, and at a turn exactly where
/// some turn up to it has the file.
pub proof fn law_blame_answers(
    s: StoreView,
    rel: Seq<char>,
    at: Option<u64>,
    working: Option<Seq<u8>>,
    json: bool,
)
    requires
        forall|i: int|
            0 <= i < s.turns().len() && counts(at, #[trigger] s.turns()[i]) ==> text_in(
                s,
                s.turns()[i],
                rel,
            ),
        at matches Some(t) ==> s.snapshot(t) is Ok,
    ensures
        blame_output(s, rel, at, working, json) is Ok <==> match at {
            Some(t) => exists|i: int|
                0 <= i < s.turns().len() && #[trigger] s.turns()[i] <= t && present_in(
                    s,
                    s.turns()[i],
                    rel,
                ),
            None => working matches Some(bytes) && !binary(bytes),
        },
        blame_output(s, rel, at, working, json) matches Err(f) ==> f.code == 1,
{
    lemma_versions(s, rel, at, s.turns(), s.turns().len());
    let history = path_versions(s, rel, at)->Ok_0;
    assert(crate::inspect::turn_origins(history).len() == history.len());
    if at is Some {
        let t = at->0;
        if exists|i: int|
            0 <= i < s.turns().len() && #[trigger] s.turns()[i] <= t && present_in(
                s,
                s.turns()[i],
                rel,
            ) {
            let i = choose|i: int|
                0 <= i < s.turns().len() && #[trigger] s.turns()[i] <= t && present_in(
                    s,
                    s.turns()[i],
                    rel,
                );
            assert(counts(at, s.turns()[i]));
        }
        if history.len() > 0 {
            let i = choose|i: int|
                0 <= i < s.turns().len() && counts(at, #[trigger] s.turns()[i]) && present_in(
                    s,
                    s.turns()[i],
                    rel,
                );
            assert(s.turns()[i] <= t);
        }
    }
}

/// A side of a diff can be read: its list of files, and each of them.
pub open spec fn side_reads(s: StoreView, work: Seq<LoadedView>, side: Side) -> bool {
    match side {
        Side::Turn(t) => turn_lists(s, t) && ({
            let files = snapshot_files(s.objects, s.snapshot(t)->Ok_0.tree)->Ok_0;
            forall|k: int| 0 <= k < files.len() ==> fetched(s.objects, (#[trigger] files[k]).id) is Ok
        }),
        Side::Working => work_reads(work),
    }
}

proof fn lemma_side_reads(s: StoreView, work: Seq<LoadedView>, side: Side)
    requires
        side_reads(s, work, side),
    ensures
        side_files(s, work, side) is Ok,
        forall|k: int|
            0 <= k < side_files(s, work, side)->Ok_0.len() ==> side_bytes(
                s,
                #[trigger] side_files(s, work, side)->Ok_0[k],
            ) is Ok,
{
    let files = side_files(s, work, side)->Ok_0;
    match side {
        Side::Turn(t) => {
            let list = snapshot_files(s.objects, s.snapshot(t)->Ok_0.tree)->Ok_0;
            assert forall|k: int| 0 <= k < files.len() implies side_bytes(
                s,
                #[trigger] files[k],
            ) is Ok by {
                assert(fetched(s.objects, list[k].id) is Ok);
            }
        },
        Side::Working => {
            assert forall|k: int| 0 <= k < files.len() implies side_bytes(
                s,
                #[trigger] files[k],
            ) is Ok by {
                assert(work[k].data is Ok);
            }
        },
    }
}

proof fn lemma_side_file(files: Seq<SideFileView>, rel: Seq<char>)
    ensures
        side_file(files, rel) matches Some(f) ==> files.contains(f),
    decreases files.len(),
{
    if files.len() > 0 {
        let less = files.drop_last();
        lemma_side_file(less, rel);
        if files.last().rel == rel {
            assert(files[files.len() - 1] == files.last());
        } else if side_file(less, rel) is Some {
            let k = choose|k: int| 0 <= k < less.len() && less[k] == side_file(less, rel)->0;
            assert(files[k] == less[k]);
        }
    }
}

proof fn lemma_diff_upto(
    s: StoreView,
    rels: Seq<Seq<char>>,
    n: nat,
    paths: Seq<Seq<char>>,
    from: Seq<char>,
    to: Seq<char>,
    a: Seq<SideFileView>,
    b: Seq<SideFileView>,
)
    requires
        n <= rels.len(),
        forall|k: int| 0 <= k < a.len() ==> side_bytes(s, #[trigger] a[k]) is Ok,
        forall|k: int| 0 <= k < b.len() ==> side_bytes(s, #[trigger] b[k]) is Ok,
    ensures
        diff_upto(s, rels, n, paths, from, to, a, b) is Ok,
    decreases n,
{
    if n > 0 {
        lemma_diff_upto(s, rels, (n - 1) as nat, paths, from, to, a, b);
        let rel = rels[n - 1];
        lemma_side_file(a, rel);
        lemma_side_file(b, rel);
        assert(path_entry(s, rel, from, to, side_file(a, rel), side_file(b, rel)) is Ok);
    }
}

/// `diff` answers where both sides can be read, and fails with code one if at all.
pub proof fn law_diff_answers(
    s: StoreView,
    work: Seq<LoadedView>,
    from: Side,
    to: Side,
    paths: Seq<Seq<char>>,
    json: bool,
)
    ensures
        side_reads(s, work, from) && side_reads(s, work, to) ==> diff_output(
            s,
            work,
            from,
            to,
            paths,
            json,
        ) is Ok,
        diff_output(s, work, from, to, paths, json) matches Err(f) ==> f.code == 1,
{
    if side_reads(s, work, from) && side_reads(s, work, to) {
        lemma_side_reads(s, work, from);
        lemma_side_reads(s, work, to);
        let a = side_files(s, work, from)->Ok_0;
        let b = side_files(s, work, to)->Ok_0;
        let rels = crate::compare::all_paths(a, b);
        lemma_diff_upto(
            s,
            rels,
            rels.len(),
            paths,
            crate::cli::side_text(from),
            crate::cli::side_text(to),
            a,
            b,
        );
    }
}

proof fn lemma_turn_with_id(s: StoreView, turns: Seq<u64>, i: int, id: Seq<char>)
    requires
        0 <= i <= turns.len(),
        forall|j: int| 0 <= j < turns.len() ==> s.turn_id(#[trigger] turns[j]) is Ok,
    ensures
        turn_with_id(s, turns, i, id) is Ok,
    decreases turns.len() - i,
{
    if i < turns.len() {
        lemma_turn_with_id(s, turns, i + 1, id);
        assert(s.turn_id(turns[i]) is Ok);
    }
}

/// `show TURN` answers where the turn can be read and the refs can be, and fails
/// where there is no such turn.
pub proof fn law_show_answers(s: StoreView, turn: u64, json: bool)
    requires
        forall|j: int| 0 <= j < s.turns().len() ==> s.turn_id(#[trigger] s.turns()[j]) is Ok,
    ensures
        show_output(s, numeral(turn as nat), json) is Ok <==> turn_lists(s, turn),
        show_output(s, numeral(turn as nat), json) matches Err(f) ==> f.code == 1,
{
    let text = numeral(turn as nat);
    law_numeral_reads_back(turn as nat);
    assert(!text.contains(':')) by {
        assert forall|i: int| 0 <= i < text.len() implies text[i] != ':' by {
            assert(crate::decimal::is_digit(text[i]));
        }
    }
    if turn_lists(s, turn) && s.snapshot(turn)->Ok_0.parent is Some {
        lemma_turn_with_id(s, s.turns(), 0, s.snapshot(turn)->Ok_0.parent->0);
    }
}

/// The working tree is as the files of a snapshot say.
pub open spec fn as_recorded(files: Seq<FileEntryView>, work: Seq<LoadedView>) -> bool {
    &&& forall|p: Seq<char>| #[trigger]
        work_paths(work).contains(p) <==> file_paths(files).contains(p)
    &&& forall|i: int, k: int|
        0 <= i < work.len() && 0 <= k < files.len() ==> !unlike(
            #[trigger] work[i],
            #[trigger] files[k],
        )
}

proof fn lemma_clean(s: StoreView, work: Seq<LoadedView>, tree: Seq<char>)
    requires
        snapshot_files(s.objects, tree) is Ok,
        distinct_paths(snapshot_files(s.objects, tree)->Ok_0),
        ascending_paths(work_paths(work)),
        work_reads(work),
    ensures
        tree_changes(s, work, tree) is Ok,
        tree_changes(s, work, tree)->Ok_0.is_empty() == as_recorded(
            snapshot_files(s.objects, tree)->Ok_0,
            work,
        ),
{
    let files = snapshot_files(s.objects, tree)->Ok_0;
    lemma_compared_reads(files, work, work.len());
    lemma_changed_paths(s, work, tree);
    let c = tree_changes(s, work, tree)->Ok_0;
    if c.is_empty() {
        assert forall|p: Seq<char>| #[trigger]
            work_paths(work).contains(p) <==> file_paths(files).contains(p) by {
            assert(!c.added.contains(p) && !c.deleted.contains(p));
        }
        assert forall|i: int, k: int| 0 <= i < work.len() && 0 <= k < files.len() implies !unlike(
            #[trigger] work[i],
            #[trigger] files[k],
        ) by {
            assert(!c.modified.contains(work[i].rel));
        }
    }
    if as_recorded(files, work) {
        if c.added.len() > 0 {
            assert(c.added.contains(c.added[0]));
        }
        if c.deleted.len() > 0 {
            assert(c.deleted.contains(c.deleted[0]));
        }
        if c.modified.len() > 0 {
            assert(c.modified.contains(c.modified[0]));
        }
    }
}

/// A restore takes a backup turn exactly where the working tree is not as the
/// latest turn recorded it, unless it is told not to; told so without `force` it
/// refuses and leaves the store as it is. A working tree that is as recorded is
/// restored over without a backup, and what is planned fails only where no file
/// of the target is at or below a given path.
pub proof fn law_backup_is_taken_where_work_is_unsaved(
    s: StoreView,
    work: Seq<LoadedView>,
    turn: u64,
    paths: Seq<Seq<char>>,
    force: bool,
    no_backup: bool,
    agent: Seq<char>,
    time: i64,
)
    requires
        s.latest() matches Some(l) && l < u64::MAX && turn_lists(s, l) && distinct_paths(
            snapshot_files(s.objects, s.snapshot(l)->Ok_0.tree)->Ok_0,
        ),
        turn_lists(s, turn),
        work_reads(work),
        ascending_paths(work_paths(work)),
    ensures
        ({
            let latest = s.latest()->0;
            let saved = as_recorded(
                snapshot_files(s.objects, s.snapshot(latest)->Ok_0.tree)->Ok_0,
                work,
            );
            let files = snapshot_files(s.objects, s.snapshot(turn)->Ok_0.tree)->Ok_0;
            let (after, r) = begun(
                s,
                work,
                Seq::empty(),
                turn,
                paths,
                force,
                no_backup,
                agent,
                time,
            );
            if saved || (force && no_backup) {
                &&& after == s
                &&& r is Ok <==> paths.len() == 0 || exists|k: int|
                    0 <= k < files.len() && at_or_below(paths, (#[trigger] files[k]).rel)
                &&& r matches Ok(plan) ==> plan.backup is None
            } else if no_backup {
                r is Err && after == s
            } else {
                r matches Ok(plan) ==> plan.backup == Some((latest + 1) as u64)
            }
        }),
{
    let latest = s.latest()->0;
    let none = Seq::<LoadedView>::empty();
    let target = s.snapshot(turn)->Ok_0;
    let files = snapshot_files(s.objects, target.tree)->Ok_0;
    lemma_clean(s, work, s.snapshot(latest)->Ok_0.tree);
    assert(at_risk(s, target, paths, none, 0) =~= none);
    let (after, r) = begun(s, work, none, turn, paths, force, no_backup, agent, time);
    let picked = selection(files, paths, files.len());
    assert(files.take(files.len() as int) =~= files);
    if picked.len() > 0 {
        lemma_selection_members(files, paths, files.len(), picked[0]);
        assert(picked.contains(picked[0]));
        let k = choose|k: int| 0 <= k < files.len() && files[k] == picked[0];
        assert(at_or_below(paths, files[k].rel));
    }
    if exists|k: int| 0 <= k < files.len() && at_or_below(paths, (#[trigger] files[k]).rel) {
        let k = choose|k: int|
            0 <= k < files.len() && at_or_below(paths, (#[trigger] files[k]).rel);
        lemma_selection_members(files, paths, files.len(), files[k]);
        assert(files.contains(files[k]));
    }
    law_turns_are_numbered_in_a_row(s, work + none, backup_label(turn), agent, None, time);
}

/// Every file of the list has an object that can be read.
pub open spec fn files_read(
    objects: Map<Seq<char>, Seq<u8>>,
    files: Seq<FileEntryView>,
) -> bool {
    forall|k: int| 0 <= k < files.len() ==> fetched(objects, (#[trigger] files[k]).id) is Ok
}

proof fn lemma_stats_of_new(
    objects: Map<Seq<char>, Seq<u8>>,
    old: Seq<FileEntryView>,
    new: Seq<FileEntryView>,
    n: nat,
)
    requires
        n <= new.len(),
        files_read(objects, old),
        files_read(objects, new),
    ensures
        stats_of_new(objects, old, new, n) is Ok,
    decreases n,
{
    if n > 0 {
        lemma_stats_of_new(objects, old, new, (n - 1) as nat);
        let e = new[n - 1];
        assert(fetched(objects, e.id) is Ok);
        lemma_last_index(old, e.rel);
        if last_index(old, e.rel) >= 0 {
            assert(fetched(objects, old[last_index(old, e.rel)].id) is Ok);
        }
    }
}

proof fn lemma_stats_of_old(
    objects: Map<Seq<char>, Seq<u8>>,
    old: Seq<FileEntryView>,
    new: Seq<FileEntryView>,
    n: nat,
)
    requires
        n <= old.len(),
        files_read(objects, old),
        files_read(objects, new),
    ensures
        stats_of_old(objects, old, new, n) is Ok,
    decreases n,
{
    if n == 0 {
        lemma_stats_of_new(objects, old, new, new.len());
    } else {
        lemma_stats_of_old(objects, old, new, (n - 1) as nat);
        assert(fetched(objects, old[n - 1].id) is Ok);
    }
}

/// A snapshot of a working tree that can be recorded is taken: on an empty store,
/// and after a latest turn whose files can be read; unless the number that was
/// asked for is zero or not above the latest turn.
pub proof fn law_snapshot_is_taken(
    s: StoreView,
    work: Seq<LoadedView>,
    label: Seq<char>,
    agent: Seq<char>,
    wanted: Option<u64>,
    time: i64,
)
    requires
        recordable(work),
        files_read(before_record(s, work).objects, work_entries(work)),
        s.latest() matches Some(l) ==> turn_lists(before_record(s, work), l) && files_read(
            before_record(s, work).objects,
            snapshot_files(
                before_record(s, work).objects,
                before_record(s, work).snapshot(l)->Ok_0.tree,
            )->Ok_0,
        ),
        wanted is None ==> s.latest() != Some(u64::MAX),
    ensures
        taken(s, work, label, agent, wanted, time).1 is Ok <==> (wanted matches Some(n) ==> n > 0
            && (s.latest() matches Some(l) ==> n > l)),
{
    let full = before_record(s, work);
    let entries = work_entries(work);
    lemma_blobs_stored(s.objects, work);
    law_grown_tree_has_its_files(entries, entries.len());
    assert(full.latest() == s.latest());
    let old = match s.latest() {
        None => Seq::<FileEntryView>::empty(),
        Some(l) => snapshot_files(full.objects, full.snapshot(l)->Ok_0.tree)->Ok_0,
    };
    lemma_stats_of_old(full.objects, old, entries, old.len());
    if next_number(s.latest(), wanted) is Ok {
        let turn = next_number(s.latest(), wanted)->Ok_0;
        law_later_turn_is_free(s, turn);
    }
}

} // verus!
