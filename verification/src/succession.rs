//! What consecutive snapshots say of each other: a turn in which nothing
//! changed is recorded all the same.

use vstd::prelude::*;
use vstd::utf8::encode_utf8;

use crate::listing::{
    distinct_paths, law_work_tree_is_listed, lemma_separate_is_distinct, lemma_sorted_distinct,
};
use crate::object::{cleaned, no_changes, snapshot_text, stored, Kind, SnapshotView, Stats};
use crate::order::law_sorted_by;
use crate::readback::{
    before_record, dir_held, held, law_grown_tree_has_its_files, law_taken_snapshot_is_latest,
    lemma_blobs_stored, recordable, work_entries, work_held, work_tree,
};
use crate::snapshot::{
    blobs_stored, by_path, file_stats, next_number, parent_state, recorded_state, snapshot_files,
    taken, FileEntryView, LoadedView,
};
use crate::statistics::{
    by_difference, by_lines_out, each_once, law_same_files_have_empty_stats, law_stats_are_sums,
    matched_at, same_files, summary, total, unmatched_at,
};
use crate::store::{law_later_turn_is_free, StoreView};
use crate::tree::{subtrees_stored, tree_id, tree_stored, EntryView, NodeView};

verus! {

/// Storing the blobs of a working tree whose blobs are there changes nothing.
proof fn lemma_blobs_there(objects: Map<Seq<char>, Seq<u8>>, work: Seq<LoadedView>)
    requires
        forall|i: int|
            0 <= i < work.len() ==> (#[trigger] work[i]).data is Ok && held(
                objects,
                Kind::Blob,
                work[i].data->Ok_0,
            ),
    ensures
        blobs_stored(objects, work).0 == objects,
    decreases work.len(),
{
    if work.len() > 0 {
        let head = work.drop_last();
        assert forall|i: int| 0 <= i < head.len() implies (#[trigger] head[i]).data is Ok && held(
            objects,
            Kind::Blob,
            head[i].data->Ok_0,
        ) by {
            assert(head[i] == work[i]);
        }
        lemma_blobs_there(objects, head);
        assert(work[work.len() - 1].data is Ok);
    }
}

/// Storing the directories below a directory whose trees are there changes
/// nothing.
proof fn lemma_subtrees_there(objects: Map<Seq<char>, Seq<u8>>, d: Seq<EntryView>, n: nat)
    requires
        dir_held(objects, d),
        n <= d.len(),
    ensures
        subtrees_stored(objects, d, n) == objects,
    decreases d, n,
{
    if n > 0 {
        lemma_subtrees_there(objects, d, (n - 1) as nat);
        if let NodeView::Dir(sub) = d[n - 1].node {
            lemma_subtrees_there(objects, sub, sub.len());
        }
    }
}

/// A second snapshot of an unchanged working tree is recorded too. It has the
/// next number, the same tree, empty statistics and the first snapshot as its
/// parent, and its own label, agent and time.
#[verifier::rlimit(30)]
pub proof fn law_unchanged_tree_records_a_turn(
    s: StoreView,
    work: Seq<LoadedView>,
    label: Seq<char>,
    agent: Seq<char>,
    time: i64,
    label2: Seq<char>,
    agent2: Seq<char>,
    time2: i64,
)
    requires
        s.latest() != Some(u64::MAX),
        recordable(work),
        taken(s, work, label, agent, None, time).1 matches Ok(first) && first.turn < u64::MAX
            && held(
            taken(s, work, label, agent, None, time).0.objects,
            Kind::Snapshot,
            encode_utf8(snapshot_text(first)),
        ),
        work_held(taken(s, work, label, agent, None, time).0.objects, work),
        taken(s, work, label, agent, None, time).0.objects.dom().finite(),
    ensures
        ({
            let (s1, r1) = taken(s, work, label, agent, None, time);
            let r2 = taken(s1, work, label2, agent2, None, time2).1;
            let first = r1->Ok_0;
            let second = r2->Ok_0;
            &&& r2 is Ok
            &&& second.turn == first.turn + 1
            &&& second.tree == first.tree
            &&& second.stats == no_changes()
            &&& second.parent == Some(first.id)
            &&& second.label == cleaned(label2)
            &&& second.agent == cleaned(agent2)
            &&& second.time == time2
        }),
{
    let (s1, r1) = taken(s, work, label, agent, None, time);
    let first = r1->Ok_0;
    let entries = work_entries(work);
    let d = work_tree(work);
    let files = by_path(entries);
    law_taken_snapshot_is_latest(s, work, label, agent, None, time);
    lemma_blobs_stored(s.objects, work);
    assert(first.tree == tree_id(d));
    lemma_blobs_stored(s1.objects, work);
    assert forall|i: int| 0 <= i < work.len() implies (#[trigger] work[i]).data is Ok && held(
        s1.objects,
        Kind::Blob,
        work[i].data->Ok_0,
    ) by {}
    lemma_blobs_there(s1.objects, work);
    law_grown_tree_has_its_files(entries, entries.len());
    lemma_subtrees_there(s1.objects, d, d.len());
    assert(tree_stored(s1.objects, d) == s1.objects);
    law_work_tree_is_listed(s1.objects, work);
    assert(parent_state(s1) == Ok::<(Option<Seq<char>>, Seq<FileEntryView>), Seq<char>>(
        (Some(first.id), files),
    ));
    lemma_separate_is_distinct(entries);
    lemma_sorted_distinct(entries);
    law_sorted_by(entries, |e: FileEntryView| e.rel);
    assert(same_files(files, entries));
    law_same_files_have_empty_stats(s1.objects, files, entries);
    let turn = (first.turn + 1) as u64;
    assert(next_number(s1.latest(), None) == Ok::<u64, Seq<char>>(turn));
    let record = SnapshotView {
        id: Seq::empty(),
        tree: tree_id(d),
        parent: Some(first.id),
        turn,
        time: time2,
        stats: no_changes(),
        agent: cleaned(agent2),
        label: cleaned(label2),
    };
    let s2 = StoreView { objects: tree_stored(s1.objects, d), ..s1 };
    assert(s2 == s1);
    let s3 = StoreView {
        objects: stored(s1.objects, Kind::Snapshot, encode_utf8(snapshot_text(record))),
        ..s1
    };
    assert(s3.latest() == s1.latest());
    law_later_turn_is_free(s3, turn);
    assert(taken(s1, work, label2, agent2, None, time2) == recorded_state(s1, record));
}

/// The counts of a snapshot are those of what changed since the turn before it:
/// files that are new, different or gone, and the lines that make the
/// difference. The first snapshot has everything as new. Its parent is the
/// snapshot of the turn before.
pub proof fn law_snapshot_counts_what_changed(
    s: StoreView,
    work: Seq<LoadedView>,
    label: Seq<char>,
    agent: Seq<char>,
    wanted: Option<u64>,
    time: i64,
)
    requires
        taken(s, work, label, agent, wanted, time).1 is Ok,
        distinct_paths(work_entries(work)),
        work.len() <= u64::MAX,
        s.latest() matches Some(l) ==> distinct_paths(
            snapshot_files(
                before_record(s, work).objects,
                before_record(s, work).snapshot(l)->Ok_0.tree,
            )->Ok_0,
        ) && snapshot_files(
            before_record(s, work).objects,
            before_record(s, work).snapshot(l)->Ok_0.tree,
        )->Ok_0.len() <= u64::MAX,
    ensures
        ({
            let snap = taken(s, work, label, agent, wanted, time).1->Ok_0;
            let full = before_record(s, work);
            match s.latest() {
                None => {
                    &&& snap.parent is None
                    &&& snap.stats == summary(full.objects, Seq::empty(), work_entries(work))
                    &&& snap.stats.files_added == work.len()
                    &&& snap.stats.files_modified == 0
                    &&& snap.stats.files_deleted == 0
                    &&& snap.stats.lines_removed == 0
                },
                Some(l) => {
                    &&& full.snapshot(l) is Ok
                    &&& snap.parent == Some(full.snapshot(l)->Ok_0.id)
                    &&& snap.stats == summary(
                        full.objects,
                        snapshot_files(full.objects, full.snapshot(l)->Ok_0.tree)->Ok_0,
                        work_entries(work),
                    )
                },
            }
        }),
{
    let snap = taken(s, work, label, agent, wanted, time).1->Ok_0;
    let full = before_record(s, work);
    let entries = work_entries(work);
    lemma_readable_work(s.objects, work);
    lemma_blobs_stored(s.objects, work);
    assert(full.latest() == s.latest());
    assert(parent_state(full) is Ok);
    let files = parent_state(full)->Ok_0.1;
    assert(file_stats(full.objects, files, entries) == Ok::<Stats, Seq<char>>(snap.stats));
    law_stats_are_sums(full.objects, files, entries);
    if s.latest() is None {
        let none = Seq::<FileEntryView>::empty();
        assert(files =~= none);
        lemma_nothing_matches(entries, entries.len());
        assert(work_entries(work).len() == work.len());
        lemma_no_match(full.objects, entries, entries.len());
    }
}

/// Where blobs were stored, every file could be read.
proof fn lemma_readable_work(objects: Map<Seq<char>, Seq<u8>>, work: Seq<LoadedView>)
    requires
        blobs_stored(objects, work).1 is Ok,
    ensures
        forall|i: int| 0 <= i < work.len() ==> (#[trigger] work[i]).data is Ok,
    decreases work.len(),
{
    if work.len() > 0 {
        lemma_readable_work(objects, work.drop_last());
        assert forall|i: int| 0 <= i < work.len() implies (#[trigger] work[i]).data is Ok by {
            if i < work.len() - 1 {
                assert(work[i] == work.drop_last()[i]);
            }
        }
    }
}

/// Against nothing, every file counts as new.
proof fn lemma_nothing_matches(entries: Seq<FileEntryView>, n: nat)
    requires
        n <= entries.len(),
    ensures
        total(n, unmatched_at(entries, Seq::empty(), each_once())) == n,
        total(n, matched_at(entries, Seq::empty(), by_difference())) == 0,
    decreases n,
{
    if n > 0 {
        lemma_nothing_matches(entries, (n - 1) as nat);
    }
}

proof fn lemma_no_match(
    objects: Map<Seq<char>, Seq<u8>>,
    entries: Seq<FileEntryView>,
    n: nat,
)
    requires
        n <= entries.len(),
    ensures
        total(n, matched_at(entries, Seq::empty(), by_lines_out(objects))) == 0,
    decreases n,
{
    if n > 0 {
        lemma_no_match(objects, entries, (n - 1) as nat);
    }
}

} // verus!
