//! Working-tree status and restore, with automatic safety backups.
//!
//! Restore is designed to be non-destructive by default: if the working
//! tree has changes that no snapshot holds, they are snapped as an
//! automatic backup turn *before* any file is overwritten. Discarding work
//! requires typing both `--no-backup` and `--force`.
//!
//! A restore runs in steps. `restore` checks, takes the backup and selects the
//! files; `settle` says for each of them whether and with what bytes it has to
//! be written; `finish` says which files have to be deleted. Whoever runs the
//! steps touches the disk in between.
//!
//! Files that the walk does not list, because an ignore rule hides them, can
//! stand where a restore writes. They are handed in beside the working tree and
//! enter the backup turn as well; what was not handed in is neither overwritten
//! nor deleted.

use vstd::hash_map::StringHashMap;
use vstd::prelude::*;

use crate::decimal::{decimal, numeral};
use crate::object::{
    fetched, id_of, lemma_extends_itself, object_id, read, tag_of, Kind, Snapshot, SnapshotView,
};
use crate::guard::{
    append_copies, at_risk, find_at_risk, lemma_at_risk, lists_id, seen_paths, snapped, touched,
    turn_holds,
};
use crate::readback::{
    law_history_is_append_only, law_snapshot_reads_back, recordable, work_held,
};
use crate::snapshot::{
    entry_for, file_views, files_of, index_paths, last_index, lemma_last_index, loaded_views,
    snapshot_file, snapshot_files, take, taken, unreadable, FileEntry, FileEntryView, LoadedFile, LoadedView,
};
use crate::store::{Store, StoreView};
use crate::text::{owned_texts, same, strip_prefix};
use crate::walker::{mode_is_exec, work_views, WorkFile, WorkFileView};

verus! {

/// What a list of changes says.
pub struct ChangesView {
    pub added: Seq<Seq<char>>,
    pub modified: Seq<Seq<char>>,
    pub deleted: Seq<Seq<char>>,
}

/// Differences between the working tree and a snapshot.
#[derive(Debug)]
pub struct Changes {
    pub added: Vec<String>,
    pub modified: Vec<String>,
    pub deleted: Vec<String>,
}

impl View for Changes {
    type V = ChangesView;

    open spec fn view(&self) -> ChangesView {
        ChangesView {
            added: owned_texts(self.added@),
            modified: owned_texts(self.modified@),
            deleted: owned_texts(self.deleted@),
        }
    }
}

/// No differences.
pub open spec fn no_difference() -> ChangesView {
    ChangesView { added: Seq::empty(), modified: Seq::empty(), deleted: Seq::empty() }
}

impl Default for Changes {
    fn default() -> (r: Self)
        ensures
            r@ == no_difference(),
    {
        let r = Changes { added: Vec::new(), modified: Vec::new(), deleted: Vec::new() };
        assert(owned_texts(r.added@) =~= Seq::<Seq<char>>::empty());
        assert(owned_texts(r.modified@) =~= Seq::<Seq<char>>::empty());
        assert(owned_texts(r.deleted@) =~= Seq::<Seq<char>>::empty());
        r
    }
}

impl ChangesView {
    /// There are no differences.
    pub open spec fn is_empty(self) -> bool {
        self.added.len() == 0 && self.modified.len() == 0 && self.deleted.len() == 0
    }

    /// How many differences there are.
    pub open spec fn total(self) -> nat {
        self.added.len() + self.modified.len() + self.deleted.len()
    }
}

impl Changes {
    /// Whether there are no differences.
    pub fn is_empty(&self) -> (r: bool)
        ensures
            r == self@.is_empty(),
    {
        self.added.len() == 0 && self.modified.len() == 0 && self.deleted.len() == 0
    }

    /// How many differences there are.
    pub fn total(&self) -> (r: usize)
        requires
            self@.total() <= usize::MAX,
        ensures
            r == self@.total(),
    {
        self.added.len() + self.modified.len() + self.deleted.len()
    }
}

/// The differences that the first `n` files of the working tree show.
pub open spec fn compared(files: Seq<FileEntryView>, work: Seq<LoadedView>, n: nat) -> Result<
    ChangesView,
    Seq<char>,
>
    decreases n,
{
    if n == 0 || n > work.len() {
        Ok(no_difference())
    } else {
        let f = work[n - 1];
        match compared(files, work, (n - 1) as nat) {
            Err(e) => Err(e),
            Ok(c) => match entry_for(files, f.rel) {
                None => Ok(ChangesView { added: c.added.push(f.rel), ..c }),
                Some(e) => match f.data {
                    Err(why) => Err(unreadable(f, why)),
                    Ok(bytes) => if object_id(Kind::Blob, bytes) != e.id || f.executable
                        != e.executable {
                        Ok(ChangesView { modified: c.modified.push(f.rel), ..c })
                    } else {
                        Ok(c)
                    },
                },
            },
        }
    }
}

/// The working tree has a file at the path.
pub open spec fn has_path(work: Seq<LoadedView>, rel: Seq<char>) -> bool {
    exists|i: int| 0 <= i < work.len() && (#[trigger] work[i]).rel == rel
}

/// Of the first `n` files of a snapshot, those that the working tree lacks.
pub open spec fn missing(files: Seq<FileEntryView>, work: Seq<LoadedView>, n: nat) -> Seq<Seq<char>>
    decreases n,
{
    if n == 0 || n > files.len() {
        Seq::empty()
    } else {
        let before = missing(files, work, (n - 1) as nat);
        if has_path(work, files[n - 1].rel) {
            before
        } else {
            before.push(files[n - 1].rel)
        }
    }
}

/// The differences between a snapshot's files and the working tree.
pub open spec fn file_changes(files: Seq<FileEntryView>, work: Seq<LoadedView>) -> Result<
    ChangesView,
    Seq<char>,
> {
    match compared(files, work, work.len()) {
        Err(e) => Err(e),
        Ok(c) => Ok(ChangesView { deleted: missing(files, work, files.len()), ..c }),
    }
}

/// The differences between a snapshot and the working tree.
pub open spec fn tree_changes(s: StoreView, work: Seq<LoadedView>, tree: Seq<char>) -> Result<
    ChangesView,
    Seq<char>,
> {
    match snapshot_files(s.objects, tree) {
        Err(e) => Err(e),
        Ok(files) => file_changes(files, work),
    }
}

fn push_path(list: &mut Vec<String>, rel: &String)
    ensures
        owned_texts(final(list)@) == owned_texts(old(list)@).push(rel@),
{
    list.push(rel.clone());
    assert(owned_texts(list@) =~= owned_texts(old(list)@).push(rel@));
}

proof fn lemma_compared_error(files: Seq<FileEntryView>, work: Seq<LoadedView>, n: nat, m: nat)
    requires
        n <= m <= work.len(),
        compared(files, work, n) is Err,
    ensures
        compared(files, work, m) == compared(files, work, n),
    decreases m,
{
    if n < m {
        lemma_compared_error(files, work, n, (m - 1) as nat);
    }
}

/// Add the paths of a list of files to an index.
fn note_paths(m: &mut StringHashMap<bool>, list: &[LoadedFile])
    ensures
        forall|rel: Seq<char>| #[trigger]
            final(m)@.contains_key(rel) <==> old(m)@.contains_key(rel) || has_path(
                loaded_views(list@),
                rel,
            ),
{
    let ghost v = loaded_views(list@);
    let ghost start = m@;
    let mut i: usize = 0;
    while i < list.len()
        invariant
            i <= list@.len(),
            v == loaded_views(list@),
            forall|rel: Seq<char>| #[trigger]
                m@.contains_key(rel) <==> start.contains_key(rel) || exists|k: int|
                    0 <= k < i && (#[trigger] v[k]).rel == rel,
        decreases list@.len() - i,
    {
        let ghost before = m@;
        m.insert(list[i].file.rel.clone(), true);
        proof {
            assert(v[i as int].rel == list@[i as int].file.rel@);
            assert forall|rel: Seq<char>| #[trigger] m@.contains_key(rel) <==> start.contains_key(
                rel,
            ) || exists|k: int| 0 <= k < i + 1 && (#[trigger] v[k]).rel == rel by {
                if rel == v[i as int].rel {
                } else {
                    assert(m@.contains_key(rel) <==> before.contains_key(rel));
                    if exists|k: int| 0 <= k < i + 1 && (#[trigger] v[k]).rel == rel {
                        let k = choose|k: int| 0 <= k < i + 1 && (#[trigger] v[k]).rel == rel;
                        assert(k < i);
                        assert(v[k].rel == rel);
                    }
                }
            }
        }
        i = i + 1;
    }
}

fn paths_of(work: &[LoadedFile]) -> (m: StringHashMap<bool>)
    ensures
        forall|rel: Seq<char>| #[trigger]
            m@.contains_key(rel) <==> has_path(loaded_views(work@), rel),
{
    let mut m: StringHashMap<bool> = StringHashMap::new();
    note_paths(&mut m, work);
    m
}

/// Compare the working tree against a snapshot by content hash (and exec bit).
pub fn worktree_changes(store: &Store, work: &[LoadedFile], snap: &Snapshot) -> (r: Result<
    Changes,
    String,
>)
    ensures
        match r {
            Ok(c) => tree_changes(store@, loaded_views(work@), snap@.tree) == Ok::<
                ChangesView,
                Seq<char>,
            >(c@),
            Err(e) => tree_changes(store@, loaded_views(work@), snap@.tree) == Err::<
                ChangesView,
                Seq<char>,
            >(e@),
        },
{
    let files = files_of(store, snap)?;
    let ghost fv = file_views(files@);
    let ghost wv = loaded_views(work@);
    let at = index_paths(&files);
    let mut changes = Changes::default();
    let mut i: usize = 0;
    while i < work.len()
        invariant
            i <= work@.len(),
            fv == file_views(files@),
            wv == loaded_views(work@),
            snapshot_files(store@.objects, snap@.tree) == Ok::<Seq<FileEntryView>, Seq<char>>(fv),
            forall|rel: Seq<char>| #[trigger]
                at@.contains_key(rel) <==> last_index(fv, rel) >= 0,
            forall|rel: Seq<char>| #[trigger]
                at@.contains_key(rel) ==> at@[rel] == last_index(fv, rel) && at@[rel]
                    < files@.len(),
            compared(fv, wv, i as nat) == Ok::<ChangesView, Seq<char>>(changes@),
            changes@.deleted == Seq::<Seq<char>>::empty(),
        decreases work@.len() - i,
    {
        let f = &work[i];
        assert(wv[i as int] == f@);
        match at.get(f.file.rel.as_str()) {
            None => {
                push_path(&mut changes.added, &f.file.rel);
            },
            Some(k) => {
                let entry = &files[*k];
                assert(fv[*k as int] == entry@);
                match &f.data {
                    Err(why) => {
                        proof {
                            lemma_compared_error(fv, wv, (i + 1) as nat, wv.len());
                        }
                        let mut e = "cannot read ".to_string();
                        e.append(f.file.abs.as_str());
                        e.append(": ");
                        e.append(why.as_str());
                        return Err(e);
                    },
                    Ok(bytes) => {
                        let id = id_of(Kind::Blob, bytes.as_slice());
                        if !same(id.as_str(), entry.id.as_str()) || f.file.executable
                            != entry.executable {
                            push_path(&mut changes.modified, &f.file.rel);
                        }
                    },
                }
            },
        }
        i = i + 1;
    }
    let present = paths_of(work);
    let ghost first = changes@;
    let mut j: usize = 0;
    while j < files.len()
        invariant
            j <= files@.len(),
            fv == file_views(files@),
            forall|rel: Seq<char>| #[trigger] present@.contains_key(rel) <==> has_path(wv, rel),
            changes@.added == first.added,
            changes@.modified == first.modified,
            changes@.deleted == missing(fv, wv, j as nat),
        decreases files@.len() - j,
    {
        assert(fv[j as int] == files@[j as int]@);
        if !present.contains_key(files[j].rel.as_str()) {
            push_path(&mut changes.deleted, &files[j].rel);
        }
        j = j + 1;
    }
    Ok(changes)
}

/// What a restore did.
#[derive(Debug, Clone, Copy, PartialEq, Eq)]
pub struct RestoreOutcome {
    /// Files created or rewritten (unchanged files are left untouched).
    pub written: usize,
    /// Files deleted because the target turn does not have them.
    pub deleted: usize,
    /// The automatic backup turn, if one was taken.
    pub backup: Option<u64>,
}

/// What a restore is going to do.
pub struct PlanView {
    /// All files of the target turn.
    pub all: Seq<FileEntryView>,
    /// The files to restore.
    pub selected: Seq<FileEntryView>,
    /// The whole tree is restored, not just some paths.
    pub full: bool,
    /// The automatic backup turn, if one was taken.
    pub backup: Option<u64>,
    /// The paths of the files that stood there before.
    pub seen: Set<Seq<char>>,
    /// Unsaved work may be discarded.
    pub discard: bool,
}

impl PlanView {
    /// What stands at the path may be overwritten or deleted.
    pub open spec fn may_replace(self, rel: Seq<char>) -> bool {
        self.discard || self.seen.contains(rel)
    }

    /// What stands at the path may be overwritten once the first `n` files are
    /// settled: it may be replaced, or is one of those files.
    pub open spec fn may_write(self, rel: Seq<char>, n: int) -> bool {
        self.may_replace(rel) || exists|j: int|
            0 <= j < n && (#[trigger] self.selected[j]).rel == rel
    }
}

/// The path is `p` itself or lies below it.
pub open spec fn selects(p: Seq<char>, rel: Seq<char>) -> bool {
    rel == p || (p + "/"@).is_prefix_of(rel)
}

/// Some of the given paths selects the path.
pub open spec fn selected_by(paths: Seq<Seq<char>>, rel: Seq<char>) -> bool {
    exists|i: int| 0 <= i < paths.len() && selects(#[trigger] paths[i], rel)
}

/// Of the first `n` files, those that the given paths select.
pub open spec fn selection(files: Seq<FileEntryView>, paths: Seq<Seq<char>>, n: nat) -> Seq<
    FileEntryView,
>
    decreases n,
{
    if n == 0 || n > files.len() {
        Seq::empty()
    } else {
        let before = selection(files, paths, (n - 1) as nat);
        if selected_by(paths, files[n - 1].rel) {
            before.push(files[n - 1])
        } else {
            before
        }
    }
}

/// The plan for the files of the target turn.
pub open spec fn planned(
    s: StoreView,
    target: SnapshotView,
    turn: u64,
    paths: Seq<Seq<char>>,
    backup: Option<u64>,
    seen: Set<Seq<char>>,
    discard: bool,
) -> Result<PlanView, Seq<char>> {
    match snapshot_files(s.objects, target.tree) {
        Err(e) => Err(e),
        Ok(all) => if paths.len() == 0 {
            Ok(PlanView { all, selected: all, full: true, backup, seen, discard })
        } else if selection(all, paths, all.len()).len() == 0 {
            Err("no files in turn "@ + numeral(turn as nat) + " match the given --path"@)
        } else {
            Ok(
                PlanView {
                    all,
                    selected: selection(all, paths, all.len()),
                    full: false,
                    backup,
                    seen,
                    discard,
                },
            )
        },
    }
}

/// The label of a backup turn.
pub open spec fn backup_label(turn: u64) -> Seq<char> {
    "auto: backup before restore to turn "@ + numeral(turn as nat)
}

/// The message that refuses to discard changes.
pub open spec fn refusal() -> Seq<char> {
    "working tree has changes no snapshot holds; run 'snapref snap' first, or add --force to discard them"@
}

/// The latest snapshot, which is the target where the turns are the same.
pub open spec fn latest_snapshot(
    s: StoreView,
    turn: u64,
    target: SnapshotView,
    latest: u64,
) -> Result<SnapshotView, Seq<char>> {
    if latest == turn {
        Ok(target)
    } else {
        s.snapshot(latest)
    }
}

/// How a restore begins: the store after it, with the backup turn where one was
/// needed, and the plan or the reason why there is none. The backup turn has
/// the working tree and the hidden files that the restore could destroy.
pub open spec fn begun(
    s: StoreView,
    work: Seq<LoadedView>,
    hidden: Seq<LoadedView>,
    turn: u64,
    paths: Seq<Seq<char>>,
    force: bool,
    no_backup: bool,
    agent: Seq<char>,
    time: i64,
) -> (StoreView, Result<PlanView, Seq<char>>) {
    match s.snapshot(turn) {
        Err(e) => (s, Err(e)),
        Ok(target) => match s.latest() {
            None => (s, Err("no snapshots yet (run 'snapref snap')"@)),
            Some(latest) => match latest_snapshot(s, turn, target, latest) {
                Err(e) => (s, Err(e)),
                Ok(newest) => match tree_changes(s, work, newest.tree) {
                    Err(e) => (s, Err(e)),
                    Ok(c) => {
                        let risk = at_risk(s, target, paths, hidden, hidden.len());
                        let seen = seen_paths(work, hidden);
                        let discard = no_backup && force;
                        if (c.is_empty() && risk.len() == 0) || discard {
                            (s, planned(s, target, turn, paths, None, seen, discard))
                        } else if no_backup {
                            (s, Err(refusal()))
                        } else {
                            let (after, r) = taken(
                                s,
                                work + risk,
                                backup_label(turn),
                                agent,
                                None,
                                time,
                            );
                            match r {
                                Err(e) => (after, Err(e)),
                                Ok(backup) => (
                                    after,
                                    planned(
                                        after,
                                        target,
                                        turn,
                                        paths,
                                        Some(backup.turn),
                                        seen,
                                        discard,
                                    ),
                                ),
                            }
                        }
                    },
                },
            },
        },
    }
}

/// The restore needs a backup turn: the working tree has changes against the
/// latest snapshot, or hidden files are at risk, and a backup was not declined.
pub open spec fn backup_due(
    s: StoreView,
    work: Seq<LoadedView>,
    hidden: Seq<LoadedView>,
    turn: u64,
    paths: Seq<Seq<char>>,
    no_backup: bool,
) -> bool {
    &&& !no_backup
    &&& s.snapshot(turn) is Ok
    &&& s.latest() is Some
    &&& {
        let target = s.snapshot(turn)->Ok_0;
        let newest = latest_snapshot(s, turn, target, s.latest()->0);
        &&& newest is Ok
        &&& tree_changes(s, work, newest->Ok_0.tree) is Ok
        &&& !tree_changes(s, work, newest->Ok_0.tree)->Ok_0.is_empty() || at_risk(
            s,
            target,
            paths,
            hidden,
            hidden.len(),
        ).len() > 0
    }
}

/// A restore under way: what it is going to do, how many of the selected files
/// are settled, and how many of those had to be written.
pub struct Restore {
    pub all: Vec<FileEntry>,
    pub selected: Vec<FileEntry>,
    pub full: bool,
    pub backup: Option<u64>,
    pub seen: StringHashMap<bool>,
    pub discard: bool,
    pub settled: usize,
    pub written: usize,
}

impl Restore {
    /// What the restore is going to do.
    pub open spec fn plan(&self) -> PlanView {
        PlanView {
            all: file_views(self.all@),
            selected: file_views(self.selected@),
            full: self.full,
            backup: self.backup,
            seen: self.seen@.dom(),
            discard: self.discard,
        }
    }

    /// Begun on the disk `start`, with each file settled by what then stood at
    /// its path and written where that was due, the restore has come to the
    /// disk `disk`, and its counters are right.
    pub open spec fn follows(
        &self,
        s: StoreView,
        start: Map<Seq<char>, (Seq<u8>, bool)>,
        disk: Map<Seq<char>, (Seq<u8>, bool)>,
    ) -> bool {
        settled_run(s, self.plan(), start, self.settled as nat) == Ok::<
            (Map<Seq<char>, (Seq<u8>, bool)>, nat),
            Seq<char>,
        >((disk, self.written as nat))
    }

    /// The counters fit the plan.
    pub open spec fn valid(&self) -> bool {
        self.written <= self.settled <= self.selected@.len()
    }
}

pub fn is_selected(paths: &[String], rel: &str) -> (r: bool)
    ensures
        r == selected_by(owned_texts(paths@), rel@),
{
    let ghost v = owned_texts(paths@);
    let mut i: usize = 0;
    while i < paths.len()
        invariant
            i <= paths@.len(),
            v == owned_texts(paths@),
            forall|j: int| 0 <= j < i ==> !selects(#[trigger] v[j], rel@),
        decreases paths@.len() - i,
    {
        assert(v[i as int] == paths@[i as int]@);
        if same(rel, paths[i].as_str()) {
            assert(selects(v[i as int], rel@));
            return true;
        }
        let mut dir = paths[i].clone();
        dir.append("/");
        match strip_prefix(rel, dir.as_str()) {
            Some(rest) => {
                proof {
                    assert(dir@ =~= rel@.subrange(0, dir@.len() as int));
                    assert(selects(v[i as int], rel@));
                }
                return true;
            },
            None => {},
        }
        i = i + 1;
    }
    false
}

/// The plan for the files of the target turn, as a restore that is about to
/// start.
fn plan_files(
    store: &Store,
    target: &Snapshot,
    turn: u64,
    paths: &[String],
    backup: Option<u64>,
    seen: StringHashMap<bool>,
    discard: bool,
) -> (r: Result<Restore, String>)
    ensures
        ({
            let want = planned(
                store@,
                target@,
                turn,
                owned_texts(paths@),
                backup,
                seen@.dom(),
                discard,
            );
            match r {
                Ok(run) => run.valid() && run.settled == 0 && want == Ok::<PlanView, Seq<char>>(
                    run.plan(),
                ),
                Err(e) => want == Err::<PlanView, Seq<char>>(e@),
            }
        }),
{
    let all = files_of(store, target)?;
    let ghost v = file_views(all@);
    assert(owned_texts(paths@).len() == paths@.len());
    let full: bool = paths.len() == 0;
    let mut selected: Vec<FileEntry> = Vec::new();
    let mut i: usize = 0;
    assert(file_views(selected@) =~= Seq::<FileEntryView>::empty());
    while i < all.len()
        invariant
            i <= all@.len(),
            v == file_views(all@),
            full == (paths@.len() == 0),
            full ==> file_views(selected@) == v.take(i as int),
            !full ==> file_views(selected@) == selection(v, owned_texts(paths@), i as nat),
        decreases all@.len() - i,
    {
        assert(v[i as int] == all@[i as int]@);
        if full || is_selected(paths, all[i].rel.as_str()) {
            let ghost before = selected@;
            let copy = all[i].clone();
            selected.push(copy);
            proof {
                assert(file_views(selected@) =~= file_views(before).push(v[i as int]));
                assert(v.take(i as int).push(v[i as int]) =~= v.take(i + 1));
            }
        }
        i = i + 1;
    }
    assert(v.take(v.len() as int) =~= v);
    assert(file_views(selected@).len() == selected@.len());
    if !full && selected.len() == 0 {
        let mut e = "no files in turn ".to_string();
        let n = decimal(turn);
        e.append(n.as_str());
        e.append(" match the given --path");
        return Err(e);
    }
    Ok(Restore { all, selected, full, backup, seen, discard, settled: 0, written: 0 })
}

/// Begin restoring the working tree (or just `paths`) to the state of `turn`.
///
/// * `paths` entries select an exact file or a whole directory prefix.
/// * `hidden` has the files that the walk does not list and that stand where the
///   restore writes or deletes: at paths of the target turn, or, when the whole
///   tree is restored, where the target's own ignore rules do not hide them.
/// * A dirty working tree is snapped as an automatic backup turn first,
///   unless `no_backup` is set, which then requires `force`. So are hidden
///   files whose bytes no snapshot holds.
pub fn restore(
    store: &mut Store,
    work: &[LoadedFile],
    hidden: &[LoadedFile],
    turn: u64,
    paths: &[String],
    force: bool,
    no_backup: bool,
    agent: &str,
    time: i64,
) -> (r: Result<Restore, String>)
    requires
        backup_due(
            old(store)@,
            loaded_views(work@),
            loaded_views(hidden@),
            turn,
            owned_texts(paths@),
            no_backup,
        ) ==> old(store)@.latest() != Some(u64::MAX),
    ensures
        ({
            let (after, outcome) = begun(
                old(store)@,
                loaded_views(work@),
                loaded_views(hidden@),
                turn,
                owned_texts(paths@),
                force,
                no_backup,
                agent@,
                time,
            );
            &&& final(store)@ == after
            &&& match r {
                Ok(run) => run.valid() && run.settled == 0 && run.written == 0 && outcome == Ok::<
                    PlanView,
                    Seq<char>,
                >(run.plan()),
                Err(e) => outcome == Err::<PlanView, Seq<char>>(e@),
            }
        }),
        final(store).table.extends(old(store).table),
{
    proof {
        lemma_extends_itself(store.table);
    }
    let target = store.snapshot(turn)?;
    let latest: u64 = match store.latest() {
        Some(n) => n,
        None => {
            return Err("no snapshots yet (run 'snapref snap')".to_string());
        },
    };
    let newest = if latest == turn {
        target.clone()
    } else {
        store.snapshot(latest)?
    };
    let changes = worktree_changes(store, work, &newest)?;
    let risk = find_at_risk(store, &target, paths, hidden);
    let mut seen: StringHashMap<bool> = StringHashMap::new();
    note_paths(&mut seen, work);
    note_paths(&mut seen, hidden);
    assert(seen@.dom() =~= seen_paths(loaded_views(work@), loaded_views(hidden@)));
    assert(loaded_views(risk@).len() == risk@.len());
    let mut backup: Option<u64> = None;
    if !changes.is_empty() || risk.len() > 0 {
        if no_backup {
            if !force {
                return Err(
                    "working tree has changes no snapshot holds; run 'snapref snap' first, or add --force to discard them".to_string(),
                );
            }
        } else {
            let mut label = "auto: backup before restore to turn ".to_string();
            let n = decimal(turn);
            label.append(n.as_str());
            let all = append_copies(work, risk);
            let snap = take(store, all.as_slice(), label.as_str(), agent, None, time)?;
            backup = Some(snap.turn);
        }
    }
    plan_files(store, &target, turn, paths, backup, seen, no_backup && force)
}

/// What a look at a path says.
pub struct StandingView {
    pub data: Option<Seq<u8>>,
    pub executable: Option<bool>,
}

/// What stands at a path on disk: its bytes where it can be read, and its exec
/// bit where there is anything.
pub struct Standing {
    pub data: Option<Vec<u8>>,
    pub executable: Option<bool>,
}

impl View for Standing {
    type V = StandingView;

    open spec fn view(&self) -> StandingView {
        StandingView {
            data: match self.data {
                Some(data) => Some(data@),
                None => None,
            },
            executable: self.executable,
        }
    }
}

/// The path already holds the bytes, with the exec bit.
pub open spec fn stands(now: StandingView, bytes: Seq<u8>, executable: bool) -> bool {
    now.data == Some(bytes) && now.executable == Some(executable)
}

/// Something stands at the path.
pub open spec fn occupied(now: StandingView) -> bool {
    now.data is Some || now.executable is Some
}

/// The message that refuses to overwrite a file that was not seen before.
pub open spec fn unseen(rel: Seq<char>) -> Seq<char> {
    "refusing to overwrite "@ + rel + ": it was not seen when the restore began"@
}

/// What has to be written for an entry: nothing where its path already holds
/// it. What may not be replaced is not overwritten.
pub open spec fn due(
    s: StoreView,
    e: FileEntryView,
    now: StandingView,
    may_replace: bool,
) -> Result<Option<Seq<u8>>, Seq<char>> {
    match fetched(s.objects, e.id) {
        Err(msg) => Err(msg),
        Ok((kind, bytes)) => if kind != Kind::Blob {
            Err("tree entry "@ + e.rel + " points at a "@ + tag_of(kind) + " object"@)
        } else if stands(now, bytes, e.executable) {
            Ok(None)
        } else if occupied(now) && !may_replace {
            Err(unseen(e.rel))
        } else {
            Ok(Some(bytes))
        },
    }
}

pub(crate) fn same_bytes(a: &Vec<u8>, b: &Vec<u8>) -> (r: bool)
    ensures
        r == (a@ == b@),
{
    if a.len() != b.len() {
        return false;
    }
    let mut i: usize = 0;
    while i < a.len()
        invariant
            i <= a@.len(),
            a@.len() == b@.len(),
            forall|j: int| 0 <= j < i ==> a@[j] == b@[j],
        decreases a@.len() - i,
    {
        if a[i] != b[i] {
            return false;
        }
        i = i + 1;
    }
    assert(a@ =~= b@);
    true
}

impl Restore {
    /// The next file to settle, if any is left.
    pub fn next(&self) -> (r: Option<&FileEntry>)
        requires
            self.valid(),
        ensures
            match r {
                Some(e) => self.settled < self.selected@.len() && *e
                    == self.selected@[self.settled as int],
                None => self.settled == self.selected@.len(),
            },
    {
        if self.settled < self.selected.len() {
            Some(&self.selected[self.settled])
        } else {
            None
        }
    }

    /// Whether a file with the path was settled already.
    fn has_settled(&self, rel: &str) -> (r: bool)
        requires
            self.valid(),
        ensures
            r == exists|j: int|
                0 <= j < self.settled && (#[trigger] self.plan().selected[j]).rel == rel@,
    {
        let ghost v = self.plan().selected;
        let mut j: usize = 0;
        while j < self.settled
            invariant
                j <= self.settled <= self.selected@.len(),
                v == self.plan().selected,
                forall|k: int| 0 <= k < j ==> (#[trigger] v[k]).rel != rel@,
            decreases self.settled - j,
        {
            assert(v[j as int] == self.selected@[j as int]@);
            if same(self.selected[j].rel.as_str(), rel) {
                assert(v[j as int].rel == rel@);
                return true;
            }
            j = j + 1;
        }
        false
    }

    /// Settle the next file, at whose path `now` stands: the bytes to write
    /// there, or nothing where it is already identical, so that its time stamp
    /// stays. A file that was not seen when the restore began is refused.
    pub fn settle(&mut self, store: &Store, now: &Standing) -> (r: Result<Option<Vec<u8>>, String>)
        requires
            old(self).valid(),
            old(self).settled < old(self).selected@.len(),
        ensures
            final(self).valid(),
            final(self).plan() == old(self).plan(),
            final(self).selected == old(self).selected,
            ({
                let e = old(self).selected@[old(self).settled as int]@;
                let want = due(
                    store@,
                    e,
                    now@,
                    old(self).plan().may_write(e.rel, old(self).settled as int),
                );
                match r {
                    Ok(Some(bytes)) => want == Ok::<Option<Seq<u8>>, Seq<char>>(Some(bytes@))
                        && final(self).settled == old(self).settled + 1 && final(self).written
                        == old(self).written + 1,
                    Ok(None) => want == Ok::<Option<Seq<u8>>, Seq<char>>(None)
                        && final(self).settled == old(self).settled + 1 && final(self).written
                        == old(self).written,
                    Err(msg) => want == Err::<Option<Seq<u8>>, Seq<char>>(msg@)
                        && final(self).settled == old(self).settled && final(self).written
                        == old(self).written,
                }
            }),
            forall|start: Map<Seq<char>, (Seq<u8>, bool)>, disk: Map<Seq<char>, (Seq<u8>, bool)>|
                #[trigger]
                old(self).follows(store@, start, disk) && now@ == found_at(
                    disk,
                    old(self).selected@[old(self).settled as int]@.rel,
                ) ==> match r {
                    Ok(Some(bytes)) => final(self).follows(
                        store@,
                        start,
                        carried_out(
                            disk,
                            old(self).selected@[old(self).settled as int]@,
                            Some(bytes@),
                        ),
                    ),
                    Ok(None) => final(self).follows(store@, start, disk),
                    Err(_) => true,
                },
    {
        let count: usize = self.selected.len();
        assert(self.settled < count);
        let e = &self.selected[self.settled];
        let (kind, bytes) = read(store.objects(), e.id.as_str())?;
        if kind != Kind::Blob {
            let mut msg = "tree entry ".to_string();
            msg.append(e.rel.as_str());
            msg.append(" points at a ");
            msg.append(kind.tag());
            msg.append(" object");
            return Err(msg);
        }
        let there: bool = match &now.data {
            Some(data) => same_bytes(data, &bytes),
            None => false,
        };
        let mode: bool = match now.executable {
            Some(x) => x == e.executable,
            None => false,
        };
        if there && mode {
            self.settled = self.settled + 1;
            return Ok(None);
        }
        let free: bool = self.discard || self.seen.contains_key(e.rel.as_str())
            || self.has_settled(e.rel.as_str());
        if (now.data.is_some() || now.executable.is_some()) && !free {
            let mut msg = "refusing to overwrite ".to_string();
            msg.append(e.rel.as_str());
            msg.append(": it was not seen when the restore began");
            return Err(msg);
        }
        self.settled = self.settled + 1;
        self.written = self.written + 1;
        Ok(Some(bytes))
    }

    /// Finish the restore: of the files that are in the working tree now, those
    /// to delete, and what the restore comes to. Only a full restore deletes
    /// anything, and nothing that was not seen when it began.
    pub fn finish(&self, work: &[WorkFile]) -> (r: (Vec<WorkFile>, RestoreOutcome))
        ensures
            work_views(r.0@) == (if self.full {
                surplus(self.plan(), work_views(work@), work@.len())
            } else {
                Seq::empty()
            }),
            r.1.written == self.written,
            r.1.deleted == r.0@.len(),
            r.1.backup == self.backup,
    {
        let mut doomed: Vec<WorkFile> = Vec::new();
        assert(work_views(doomed@) =~= Seq::<WorkFileView>::empty());
        if self.full {
            let keep = index_paths(&self.all);
            let ghost plan = self.plan();
            let ghost v = work_views(work@);
            let mut i: usize = 0;
            while i < work.len()
                invariant
                    i <= work@.len(),
                    v == work_views(work@),
                    plan == self.plan(),
                    forall|rel: Seq<char>| #[trigger]
                        keep@.contains_key(rel) <==> last_index(plan.all, rel) >= 0,
                    work_views(doomed@) == surplus(plan, v, i as nat),
                decreases work@.len() - i,
            {
                assert(v[i as int] == work@[i as int]@);
                let rel = work[i].rel.as_str();
                if !keep.contains_key(rel) && (self.discard || self.seen.contains_key(rel)) {
                    let ghost before = doomed@;
                    let copy = work[i].clone();
                    doomed.push(copy);
                    assert(work_views(doomed@) =~= work_views(before).push(v[i as int]));
                }
                i = i + 1;
            }
        }
        let deleted: usize = doomed.len();
        (doomed, RestoreOutcome { written: self.written, deleted, backup: self.backup })
    }
}

/// Of the first `n` files of the working tree, those that the target turn does
/// not have and that may be deleted.
pub open spec fn surplus(plan: PlanView, work: Seq<WorkFileView>, n: nat) -> Seq<WorkFileView>
    decreases n,
{
    if n == 0 || n > work.len() {
        Seq::empty()
    } else {
        let before = surplus(plan, work, (n - 1) as nat);
        let rel = work[n - 1].rel;
        if last_index(plan.all, rel) < 0 && plan.may_replace(rel) {
            before.push(work[n - 1])
        } else {
            before
        }
    }
}

/// The bytes of an entry.
pub open spec fn entry_bytes(s: StoreView, e: FileEntryView) -> Seq<u8> {
    fetched(s.objects, e.id)->Ok_0.1
}

/// What a look at a path of the disk says.
pub open spec fn found_at(
    disk: Map<Seq<char>, (Seq<u8>, bool)>,
    rel: Seq<char>,
) -> StandingView {
    if disk.contains_key(rel) {
        StandingView { data: Some(disk[rel].0), executable: Some(disk[rel].1) }
    } else {
        StandingView { data: None, executable: None }
    }
}

/// The disk after the outcome of settling an entry was carried out.
pub open spec fn carried_out(
    disk: Map<Seq<char>, (Seq<u8>, bool)>,
    e: FileEntryView,
    outcome: Option<Seq<u8>>,
) -> Map<Seq<char>, (Seq<u8>, bool)> {
    match outcome {
        Some(bytes) => disk.insert(e.rel, (bytes, e.executable)),
        None => disk,
    }
}

/// What settling the first `n` files of a plan comes to, each with what then
/// stands at its path, and each written before the next: the disk, and how many
/// files were written; or the first refusal.
pub open spec fn settled_run(
    s: StoreView,
    plan: PlanView,
    disk: Map<Seq<char>, (Seq<u8>, bool)>,
    n: nat,
) -> Result<(Map<Seq<char>, (Seq<u8>, bool)>, nat), Seq<char>>
    decreases n,
{
    if n == 0 || n > plan.selected.len() {
        Ok((disk, 0))
    } else {
        match settled_run(s, plan, disk, (n - 1) as nat) {
            Err(msg) => Err(msg),
            Ok((now, written)) => {
                let e = plan.selected[n - 1];
                match due(s, e, found_at(now, e.rel), plan.may_write(e.rel, n - 1)) {
                    Err(msg) => Err(msg),
                    Ok(None) => Ok((now, written)),
                    Ok(Some(bytes)) => Ok(
                        (now.insert(e.rel, (bytes, e.executable)), written + 1),
                    ),
                }
            },
        }
    }
}

/// Settling a file leaves its path with the entry's bytes and exec bit, and
/// every other path as it was.
pub proof fn law_settled_file_stands(
    s: StoreView,
    disk: Map<Seq<char>, (Seq<u8>, bool)>,
    e: FileEntryView,
    may_replace: bool,
)
    requires
        fetched(s.objects, e.id) matches Ok((Kind::Blob, _)),
        disk.contains_key(e.rel) ==> may_replace,
    ensures
        due(s, e, found_at(disk, e.rel), may_replace) is Ok,
        carried_out(disk, e, due(s, e, found_at(disk, e.rel), may_replace)->Ok_0) == disk.insert(
            e.rel,
            (entry_bytes(s, e), e.executable),
        ),
{
    let out = carried_out(disk, e, due(s, e, found_at(disk, e.rel), may_replace)->Ok_0);
    assert(out =~= disk.insert(e.rel, (entry_bytes(s, e), e.executable)));
}

/// The disk after the first `n` entries were settled.
pub open spec fn after_writes(
    s: StoreView,
    disk: Map<Seq<char>, (Seq<u8>, bool)>,
    list: Seq<FileEntryView>,
    n: nat,
) -> Map<Seq<char>, (Seq<u8>, bool)>
    decreases n,
{
    if n == 0 || n > list.len() {
        disk
    } else {
        let e = list[n - 1];
        after_writes(s, disk, list, (n - 1) as nat).insert(
            e.rel,
            (entry_bytes(s, e), e.executable),
        )
    }
}

/// The disk after the first `n` of the doomed files were deleted.
pub open spec fn after_deletes(
    disk: Map<Seq<char>, (Seq<u8>, bool)>,
    doomed: Seq<WorkFileView>,
    n: nat,
) -> Map<Seq<char>, (Seq<u8>, bool)>
    decreases n,
{
    if n == 0 || n > doomed.len() {
        disk
    } else {
        after_deletes(disk, doomed, (n - 1) as nat).remove(doomed[n - 1].rel)
    }
}

pub(crate) proof fn lemma_after_writes(
    s: StoreView,
    disk: Map<Seq<char>, (Seq<u8>, bool)>,
    list: Seq<FileEntryView>,
    n: nat,
    rel: Seq<char>,
)
    requires
        n <= list.len(),
    ensures
        ({
            let out = after_writes(s, disk, list, n);
            match entry_for(list.take(n as int), rel) {
                Some(e) => out.contains_key(rel) && out[rel] == (entry_bytes(s, e), e.executable),
                None => out.contains_key(rel) == disk.contains_key(rel) && (disk.contains_key(rel)
                    ==> out[rel] == disk[rel]),
            }
        }),
    decreases n,
{
    if n > 0 {
        lemma_after_writes(s, disk, list, (n - 1) as nat, rel);
        assert(list.take(n as int).drop_last() =~= list.take(n - 1));
        lemma_last_index(list.take(n as int), rel);
        lemma_last_index(list.take(n - 1), rel);
    }
}

pub(crate) proof fn lemma_after_deletes(
    disk: Map<Seq<char>, (Seq<u8>, bool)>,
    doomed: Seq<WorkFileView>,
    n: nat,
    rel: Seq<char>,
)
    requires
        n <= doomed.len(),
    ensures
        ({
            let out = after_deletes(disk, doomed, n);
            if exists|i: int| 0 <= i < n && (#[trigger] doomed[i]).rel == rel {
                !out.contains_key(rel)
            } else {
                out.contains_key(rel) == disk.contains_key(rel) && (disk.contains_key(rel)
                    ==> out[rel] == disk[rel])
            }
        }),
    decreases n,
{
    if n > 0 {
        lemma_after_deletes(disk, doomed, (n - 1) as nat, rel);
        if doomed[n - 1].rel == rel {
            assert(exists|i: int| 0 <= i < n && (#[trigger] doomed[i]).rel == rel);
        }
    }
}

pub(crate) proof fn lemma_surplus(
    plan: PlanView,
    work: Seq<WorkFileView>,
    n: nat,
    rel: Seq<char>,
)
    requires
        n <= work.len(),
    ensures
        (exists|i: int|
            0 <= i < surplus(plan, work, n).len() && (#[trigger] surplus(plan, work, n)[i]).rel
                == rel) <==> last_index(plan.all, rel) < 0 && plan.may_replace(rel) && exists|i: int|
            0 <= i < n && (#[trigger] work[i]).rel == rel,
    decreases n,
{
    if n > 0 {
        let m = (n - 1) as nat;
        lemma_surplus(plan, work, m, rel);
        let before = surplus(plan, work, m);
        let out = surplus(plan, work, n);
        if exists|i: int| 0 <= i < out.len() && (#[trigger] out[i]).rel == rel {
            let i = choose|i: int| 0 <= i < out.len() && (#[trigger] out[i]).rel == rel;
            if i < before.len() {
                assert(before[i].rel == rel);
                let k = choose|k: int| 0 <= k < m && (#[trigger] work[k]).rel == rel;
                assert(work[k].rel == rel);
            } else {
                assert(work[n - 1].rel == rel);
            }
        }
        if last_index(plan.all, rel) < 0 && plan.may_replace(rel) && exists|i: int| 0 <= i < n && (#[trigger] work[i]).rel
            == rel {
            let k = choose|k: int| 0 <= k < n && (#[trigger] work[k]).rel == rel;
            if k == n - 1 {
                assert(out[out.len() - 1].rel == rel);
            } else {
                assert(work[k].rel == rel);
                let i = choose|i: int| 0 <= i < before.len() && (#[trigger] before[i]).rel == rel;
                assert(out[i].rel == rel);
            }
        }
    }
}

/// A full restore reaches the target: at each path of the target turn stand its
/// bytes and exec bit, no other file is left that the walk found and that was
/// there before, and everything else is as it was.
pub proof fn law_full_restore_reaches_target(
    s: StoreView,
    plan: PlanView,
    disk: Map<Seq<char>, (Seq<u8>, bool)>,
    work: Seq<WorkFileView>,
    rel: Seq<char>,
)
    requires
        plan.full,
        plan.selected == plan.all,
    ensures
        ({
            let written = after_writes(s, disk, plan.selected, plan.selected.len());
            let doomed = surplus(plan, work, work.len());
            let end = after_deletes(written, doomed, doomed.len());
            match entry_for(plan.all, rel) {
                Some(e) => end.contains_key(rel) && end[rel] == (entry_bytes(s, e), e.executable),
                None => if plan.may_replace(rel) && exists|i: int|
                    0 <= i < work.len() && (#[trigger] work[i]).rel == rel {
                    !end.contains_key(rel)
                } else {
                    end.contains_key(rel) == disk.contains_key(rel) && (disk.contains_key(rel)
                        ==> end[rel] == disk[rel])
                },
            }
        }),
{
    let written = after_writes(s, disk, plan.selected, plan.selected.len());
    let doomed = surplus(plan, work, work.len());
    lemma_after_writes(s, disk, plan.selected, plan.selected.len(), rel);
    assert(plan.selected.take(plan.selected.len() as int) =~= plan.selected);
    lemma_after_deletes(written, doomed, doomed.len(), rel);
    lemma_surplus(plan, work, work.len(), rel);
}

proof fn lemma_selection(
    files: Seq<FileEntryView>,
    paths: Seq<Seq<char>>,
    n: nat,
    rel: Seq<char>,
)
    requires
        n <= files.len(),
    ensures
        entry_for(selection(files, paths, n), rel) == (if selected_by(paths, rel) {
            entry_for(files.take(n as int), rel)
        } else {
            None
        }),
    decreases n,
{
    let out = selection(files, paths, n);
    if n > 0 {
        let m = (n - 1) as nat;
        lemma_selection(files, paths, m, rel);
        let before = selection(files, paths, m);
        let seen = files.take(n as int);
        assert(seen.drop_last() =~= files.take(n - 1));
        lemma_last_index(files.take(n - 1), rel);
        lemma_last_index(before, rel);
        if selected_by(paths, files[n - 1].rel) {
            assert(out.drop_last() =~= before);
            lemma_last_index(out, rel);
        }
    } else {
        assert(files.take(0) =~= Seq::<FileEntryView>::empty());
    }
}

/// A restore of given paths brings back exactly the files at or below them, and
/// touches nothing else; it never deletes.
pub proof fn law_scoped_restore_touches_selected_paths(
    s: StoreView,
    all: Seq<FileEntryView>,
    paths: Seq<Seq<char>>,
    disk: Map<Seq<char>, (Seq<u8>, bool)>,
    rel: Seq<char>,
)
    ensures
        ({
            let list = selection(all, paths, all.len());
            let end = after_writes(s, disk, list, list.len());
            if selected_by(paths, rel) && entry_for(all, rel) is Some {
                let e = entry_for(all, rel)->0;
                end.contains_key(rel) && end[rel] == (entry_bytes(s, e), e.executable)
            } else {
                end.contains_key(rel) == disk.contains_key(rel) && (disk.contains_key(rel)
                    ==> end[rel] == disk[rel])
            }
        }),
{
    let list = selection(all, paths, all.len());
    lemma_selection(all, paths, all.len(), rel);
    assert(all.take(all.len() as int) =~= all);
    lemma_after_writes(s, disk, list, list.len(), rel);
    assert(list.take(list.len() as int) =~= list);
}

/// A restore that gets as far as a plan destroys nothing that no snapshot
/// holds. Of every file that it was told of, listed by the walk or hidden, one
/// of these holds: the restore leaves its path alone; a snapshot has a file
/// with its bytes; the backup turn has it, with its bytes and exec bit; or
/// discarding it was asked for twice over.
#[verifier::rlimit(40)]
pub proof fn law_restore_keeps_unsaved_work(
    s: StoreView,
    work: Seq<LoadedView>,
    hidden: Seq<LoadedView>,
    turn: u64,
    paths: Seq<Seq<char>>,
    force: bool,
    no_backup: bool,
    agent: Seq<char>,
    time: i64,
    f: LoadedView,
)
    requires
        begun(s, work, hidden, turn, paths, force, no_backup, agent, time).1 is Ok,
        work.contains(f) || hidden.contains(f),
        f.data is Ok,
        ({
            let (after, r) = begun(s, work, hidden, turn, paths, force, no_backup, agent, time);
            let all = work + at_risk(s, s.snapshot(turn)->Ok_0, paths, hidden, hidden.len());
            r->Ok_0.backup is Some ==> recordable(all) && work_held(after.objects, all)
        }),
    ensures
        ({
            let (after, r) = begun(s, work, hidden, turn, paths, force, no_backup, agent, time);
            let target = s.snapshot(turn)->Ok_0;
            let bytes = f.data->Ok_0;
            let all = work + at_risk(s, target, paths, hidden, hidden.len());
            let backup = taken(s, all, backup_label(turn), agent, None, time).1;
            ||| no_backup && force
            ||| !work.contains(f) && !touched(s, target, paths, f.rel)
            ||| snapped(s, object_id(Kind::Blob, bytes))
            ||| {
                &&& backup is Ok
                &&& r->Ok_0.backup == Some(backup->Ok_0.turn)
                &&& snapshot_file(after.objects, backup->Ok_0.tree, f.rel) == Ok::<
                    Option<(Seq<u8>, bool)>,
                    Seq<char>,
                >(Some((bytes, f.executable)))
            }
        }),
{
    let target = s.snapshot(turn)->Ok_0;
    let newest = latest_snapshot(s, turn, target, s.latest()->0)->Ok_0;
    let risk = at_risk(s, target, paths, hidden, hidden.len());
    let all = work + risk;
    if !work.contains(f) {
        let k = choose|k: int| 0 <= k < hidden.len() && hidden[k] == f;
        lemma_at_risk(s, target, paths, hidden, hidden.len(), k);
    }
    if !(no_backup && force) {
        let c = tree_changes(s, work, newest.tree)->Ok_0;
        if c.is_empty() && risk.len() == 0 {
            if work.contains(f) {
                lemma_clean_file_is_snapped(s, work, turn, f);
            }
        } else {
            lemma_concat_contains(work, risk, f);
            if all.contains(f) {
                lemma_backed_up(s, all, backup_label(turn), agent, time, f);
            }
        }
    }
}

proof fn lemma_concat_contains(a: Seq<LoadedView>, b: Seq<LoadedView>, f: LoadedView)
    ensures
        (a + b).contains(f) <==> a.contains(f) || b.contains(f),
{
    if a.contains(f) {
        let k = choose|k: int| 0 <= k < a.len() && a[k] == f;
        assert((a + b)[k] == f);
    }
    if b.contains(f) {
        let k = choose|k: int| 0 <= k < b.len() && b[k] == f;
        assert((a + b)[a.len() + k] == f);
    }
}

/// Where a working tree has no change against the latest snapshot, that
/// snapshot holds the bytes of each of its files.
proof fn lemma_clean_file_is_snapped(
    s: StoreView,
    work: Seq<LoadedView>,
    turn: u64,
    f: LoadedView,
)
    requires
        s.snapshot(turn) is Ok,
        s.latest() is Some,
        latest_snapshot(s, turn, s.snapshot(turn)->Ok_0, s.latest()->0) is Ok,
        tree_changes(
            s,
            work,
            latest_snapshot(s, turn, s.snapshot(turn)->Ok_0, s.latest()->0)->Ok_0.tree,
        ) matches Ok(c) && c.is_empty(),
        work.contains(f),
        f.data is Ok,
    ensures
        snapped(s, object_id(Kind::Blob, f.data->Ok_0)),
{
    let newest = latest_snapshot(s, turn, s.snapshot(turn)->Ok_0, s.latest()->0)->Ok_0;
    let k = choose|k: int| 0 <= k < work.len() && work[k] == f;
    lemma_clean_file(s, work, newest.tree, k);
    let last = s.turns().len() - 1;
    assert(turn_holds(s, s.turns()[last], object_id(Kind::Blob, f.data->Ok_0)));
}

/// A snapshot of files has each of them.
proof fn lemma_backed_up(
    s: StoreView,
    all: Seq<LoadedView>,
    label: Seq<char>,
    agent: Seq<char>,
    time: i64,
    f: LoadedView,
)
    requires
        taken(s, all, label, agent, None, time).1 is Ok,
        recordable(all),
        work_held(taken(s, all, label, agent, None, time).0.objects, all),
        all.contains(f),
    ensures
        snapshot_file(
            taken(s, all, label, agent, None, time).0.objects,
            taken(s, all, label, agent, None, time).1->Ok_0.tree,
            f.rel,
        ) == Ok::<Option<(Seq<u8>, bool)>, Seq<char>>(Some((f.data->Ok_0, f.executable))),
{
    let k = choose|k: int| 0 <= k < all.len() && all[k] == f;
    law_snapshot_reads_back(s, all, label, agent, None, time, f.rel);
    assert(all[k].rel == f.rel);
}

/// Where a comparison finds no change, the snapshot has every file with its
/// bytes.
proof fn lemma_clean_file(s: StoreView, work: Seq<LoadedView>, tree: Seq<char>, k: int)
    requires
        tree_changes(s, work, tree) matches Ok(c) && c.is_empty(),
        0 <= k < work.len(),
        work[k].data is Ok,
    ensures
        snapshot_files(s.objects, tree) is Ok,
        lists_id(
            snapshot_files(s.objects, tree)->Ok_0,
            object_id(Kind::Blob, work[k].data->Ok_0),
        ),
{
    let files = snapshot_files(s.objects, tree)->Ok_0;
    lemma_compared_same(files, work, work.len(), k);
    lemma_last_index(files, work[k].rel);
    let j = last_index(files, work[k].rel);
    assert(files[j].id == object_id(Kind::Blob, work[k].data->Ok_0));
}

proof fn lemma_compared_same(files: Seq<FileEntryView>, work: Seq<LoadedView>, n: nat, k: int)
    requires
        0 <= k < n <= work.len(),
        compared(files, work, n) matches Ok(c) && c.added.len() == 0 && c.modified.len() == 0,
        work[k].data is Ok,
    ensures
        entry_for(files, work[k].rel) matches Some(e) && e.id == object_id(
            Kind::Blob,
            work[k].data->Ok_0,
        ) && e.executable == work[k].executable,
    decreases n,
{
    if k < n - 1 {
        lemma_compared_same(files, work, (n - 1) as nat, k);
    }
}

/// A file that was not seen when the restore began, and that the restore did
/// not write itself, is neither overwritten nor deleted, unless discarding work
/// was asked for.
pub proof fn law_unseen_files_are_left_alone(
    s: StoreView,
    plan: PlanView,
    e: FileEntryView,
    now: StandingView,
    n: int,
    work: Seq<WorkFileView>,
)
    ensures
        occupied(now) && !plan.may_write(e.rel, n) ==> due(s, e, now, plan.may_write(e.rel, n))
            is Err || due(s, e, now, plan.may_write(e.rel, n))->Ok_0 is None,
        forall|i: int|
            0 <= i < surplus(plan, work, work.len()).len() ==> plan.may_replace(
                (#[trigger] surplus(plan, work, work.len())[i]).rel,
            ),
{
    assert forall|i: int| 0 <= i < surplus(plan, work, work.len()).len() implies plan.may_replace(
        (#[trigger] surplus(plan, work, work.len())[i]).rel,
    ) by {
        lemma_surplus(plan, work, work.len(), surplus(plan, work, work.len())[i].rel);
    }
}

/// A restore never shrinks the store: every object and every turn ref that was
/// there stays.
pub proof fn law_restore_keeps_the_store(
    s: StoreView,
    work: Seq<LoadedView>,
    hidden: Seq<LoadedView>,
    turn: u64,
    paths: Seq<Seq<char>>,
    force: bool,
    no_backup: bool,
    agent: Seq<char>,
    time: i64,
)
    ensures
        ({
            let after = begun(s, work, hidden, turn, paths, force, no_backup, agent, time).0;
            &&& crate::readback::extends(s.objects, after.objects)
            &&& s.refs.is_prefix_of(after.refs)
        }),
{
    let all = work + at_risk(s, s.snapshot(turn)->Ok_0, paths, hidden, hidden.len());
    law_history_is_append_only(s, all, backup_label(turn), agent, None, time);
    assert(s.refs =~= s.refs.subrange(0, s.refs.len() as int));
}

/// A dirty working tree, and hidden files at risk, are never discarded on
/// `no_backup` alone: the restore is refused, and the store stays as it was.
pub proof fn law_unforced_restore_is_refused(
    s: StoreView,
    work: Seq<LoadedView>,
    hidden: Seq<LoadedView>,
    turn: u64,
    paths: Seq<Seq<char>>,
    agent: Seq<char>,
    time: i64,
)
    requires
        backup_due(s, work, hidden, turn, paths, false),
    ensures
        begun(s, work, hidden, turn, paths, false, true, agent, time) == (
            s,
            Err::<PlanView, Seq<char>>(refusal()),
        ),
{
}

/// A Unix file mode with all exec bits set or cleared.
pub open spec fn with_exec(mode: u32, executable: bool) -> u32 {
    if executable {
        mode | 0o111
    } else {
        mode & !0o111u32
    }
}

/// A Unix file mode with all exec bits set or cleared.
pub fn set_exec(mode: u32, executable: bool) -> (r: u32)
    ensures
        r == with_exec(mode, executable),
{
    if executable {
        mode | 0o111
    } else {
        mode & !0o111u32
    }
}

/// A mode whose exec bits were set or cleared is read back as such, and its
/// other bits stay.
pub proof fn law_exec_mode_reads_back(mode: u32, executable: bool)
    ensures
        mode_is_exec(with_exec(mode, executable)) == executable,
        with_exec(mode, executable) & !0o111u32 == mode & !0o111u32,
{
    assert((mode | 0o111) & 0o111 != 0) by (bit_vector);
    assert((mode & !0o111u32) & 0o111 == 0) by (bit_vector);
    assert((mode | 0o111) & !0o111u32 == mode & !0o111u32) by (bit_vector);
    assert((mode & !0o111u32) & !0o111u32 == mode & !0o111u32) by (bit_vector);
}

} // verus!
