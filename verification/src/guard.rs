//! What a restore could destroy: files that the walk of the working tree does
//! not list, that stand where the restore writes or deletes, and whose bytes no
//! snapshot holds.

use vstd::prelude::*;
use vstd::utf8::{decode_utf8, valid_utf8};

use crate::glob::{ignore_file, parse_lines, patterns_view, Pattern, PatternView};
use crate::object::{fetched, id_of, object_id, read, Kind, Snapshot, SnapshotView};
use crate::restore::{has_path, is_selected, same_bytes, selected_by};
use crate::snapshot::{
    file_at, file_views, files_of, index_paths, last_index, loaded_views, snapshot_file,
    snapshot_files, FileEntry, FileEntryView, LoadedFile, LoadedView,
};
use crate::store::{Store, StoreView, IGNORE_FILE};
use crate::text::{owned_texts, same, utf8_str};

verus! {

/// Some of the files has the id.
pub open spec fn lists_id(files: Seq<FileEntryView>, id: Seq<char>) -> bool {
    exists|j: int| 0 <= j < files.len() && (#[trigger] files[j]).id == id
}

/// The snapshot of a turn has a file with the id.
pub open spec fn turn_holds(s: StoreView, turn: u64, id: Seq<char>) -> bool {
    match s.snapshot(turn) {
        Err(_) => false,
        Ok(snap) => match snapshot_files(s.objects, snap.tree) {
            Err(_) => false,
            Ok(files) => lists_id(files, id),
        },
    }
}

/// The snapshot of some turn has a file with the id.
pub open spec fn snapped(s: StoreView, id: Seq<char>) -> bool {
    exists|i: int| 0 <= i < s.turns().len() && turn_holds(s, #[trigger] s.turns()[i], id)
}

/// Some snapshot holds the bytes of the file, and they can be read back.
pub open spec fn is_safe(s: StoreView, f: LoadedView) -> bool {
    match f.data {
        Err(_) => false,
        Ok(bytes) => snapped(s, object_id(Kind::Blob, bytes)) && fetched(
            s.objects,
            object_id(Kind::Blob, bytes),
        ) == Ok::<(Kind, Seq<u8>), Seq<char>>((Kind::Blob, bytes)),
    }
}

/// A restore may write at the path, or delete what stands there: it restores
/// the whole tree, or the path is among the selected files of the target.
pub open spec fn touched(
    s: StoreView,
    target: SnapshotView,
    paths: Seq<Seq<char>>,
    rel: Seq<char>,
) -> bool {
    match snapshot_files(s.objects, target.tree) {
        Err(_) => false,
        Ok(all) => paths.len() == 0 || (selected_by(paths, rel) && last_index(all, rel) >= 0),
    }
}

/// Of the first `n` hidden files, those that a restore could destroy.
pub open spec fn at_risk(
    s: StoreView,
    target: SnapshotView,
    paths: Seq<Seq<char>>,
    hidden: Seq<LoadedView>,
    n: nat,
) -> Seq<LoadedView>
    decreases n,
{
    if n == 0 || n > hidden.len() {
        Seq::empty()
    } else {
        let before = at_risk(s, target, paths, hidden, (n - 1) as nat);
        let f = hidden[n - 1];
        if touched(s, target, paths, f.rel) && !is_safe(s, f) {
            before.push(f)
        } else {
            before
        }
    }
}

fn find_id(files: &Vec<FileEntry>, id: &str) -> (r: bool)
    ensures
        r == lists_id(file_views(files@), id@),
{
    let ghost v = file_views(files@);
    let mut j: usize = 0;
    while j < files.len()
        invariant
            j <= files@.len(),
            v == file_views(files@),
            forall|k: int| 0 <= k < j ==> (#[trigger] v[k]).id != id@,
        decreases files@.len() - j,
    {
        assert(v[j as int] == files@[j as int]@);
        if same(files[j].id.as_str(), id) {
            assert(v[j as int].id == id@);
            return true;
        }
        j = j + 1;
    }
    false
}

/// Whether the snapshot of some turn has a file with the id.
pub fn is_snapped(store: &Store, id: &str) -> (r: bool)
    ensures
        r == snapped(store@, id@),
{
    let turns = store.turns();
    let mut i: usize = 0;
    while i < turns.len()
        invariant
            i <= turns@.len(),
            turns@ == store@.turns(),
            forall|k: int| 0 <= k < i ==> !turn_holds(store@, #[trigger] turns@[k], id@),
        decreases turns@.len() - i,
    {
        match store.snapshot(turns[i]) {
            Ok(snap) => {
                match files_of(store, &snap) {
                    Ok(files) => {
                        if find_id(&files, id) {
                            assert(turn_holds(store@, turns@[i as int], id@));
                            return true;
                        }
                    },
                    Err(_) => {},
                }
            },
            Err(_) => {},
        }
        i = i + 1;
    }
    false
}

fn check_safe(store: &Store, f: &LoadedFile) -> (r: bool)
    ensures
        r == is_safe(store@, f@),
{
    match &f.data {
        Err(_) => false,
        Ok(bytes) => {
            let id = id_of(Kind::Blob, bytes.as_slice());
            match read(store.objects(), id.as_str()) {
                Ok((kind, stored)) => kind == Kind::Blob && same_bytes(&stored, bytes)
                    && is_snapped(store, id.as_str()),
                Err(_) => false,
            }
        },
    }
}

/// A copy of a loaded file.
pub(crate) fn copy_loaded(f: &LoadedFile) -> (r: LoadedFile)
    ensures
        r@ == f@,
{
    let data: Result<Vec<u8>, String> = match &f.data {
        Ok(bytes) => {
            let mut copy: Vec<u8> = Vec::new();
            copy.extend_from_slice(bytes.as_slice());
            assert(copy@ =~= bytes@);
            Ok(copy)
        },
        Err(e) => Err(e.clone()),
    };
    LoadedFile { file: f.file.clone(), data }
}

/// Copies of the hidden files that a restore could destroy.
pub fn find_at_risk(
    store: &Store,
    target: &Snapshot,
    paths: &[String],
    hidden: &[LoadedFile],
) -> (r: Vec<LoadedFile>)
    ensures
        loaded_views(r@) == at_risk(
            store@,
            target@,
            owned_texts(paths@),
            loaded_views(hidden@),
            hidden@.len(),
        ),
{
    let ghost hv = loaded_views(hidden@);
    let ghost pv = owned_texts(paths@);
    assert(pv.len() == paths@.len());
    let mut out: Vec<LoadedFile> = Vec::new();
    assert(loaded_views(out@) =~= Seq::<LoadedView>::empty());
    let all = match files_of(store, target) {
        Ok(all) => all,
        Err(_) => {
            proof {
                lemma_nothing_touched(store@, target@, pv, hv, hv.len());
            }
            return out;
        },
    };
    let at = index_paths(&all);
    let mut i: usize = 0;
    while i < hidden.len()
        invariant
            i <= hidden@.len(),
            hv == loaded_views(hidden@),
            pv == owned_texts(paths@),
            pv.len() == paths@.len(),
            snapshot_files(store@.objects, target@.tree) == Ok::<Seq<FileEntryView>, Seq<char>>(
                file_views(all@),
            ),
            forall|rel: Seq<char>| #[trigger]
                at@.contains_key(rel) <==> last_index(file_views(all@), rel) >= 0,
            loaded_views(out@) == at_risk(store@, target@, pv, hv, i as nat),
        decreases hidden@.len() - i,
    {
        let f = &hidden[i];
        assert(hv[i as int] == f@);
        let rel = f.file.rel.as_str();
        let reached: bool = paths.len() == 0 || (is_selected(paths, rel) && at.contains_key(rel));
        if reached && !check_safe(store, f) {
            let ghost before = out@;
            let copy = copy_loaded(f);
            out.push(copy);
            assert(loaded_views(out@) =~= loaded_views(before).push(f@));
        }
        i = i + 1;
    }
    out
}

proof fn lemma_nothing_touched(
    s: StoreView,
    target: SnapshotView,
    paths: Seq<Seq<char>>,
    hidden: Seq<LoadedView>,
    n: nat,
)
    requires
        snapshot_files(s.objects, target.tree) is Err,
    ensures
        at_risk(s, target, paths, hidden, n) == Seq::<LoadedView>::empty(),
    decreases n,
{
    if n > 0 {
        lemma_nothing_touched(s, target, paths, hidden, (n - 1) as nat);
    }
}

/// The working tree's files and the hidden ones that are at risk, together.
pub(crate) fn append_copies(work: &[LoadedFile], risk: Vec<LoadedFile>) -> (r: Vec<LoadedFile>)
    ensures
        loaded_views(r@) == loaded_views(work@) + loaded_views(risk@),
{
    let ghost wv = loaded_views(work@);
    let mut out: Vec<LoadedFile> = Vec::new();
    let mut i: usize = 0;
    assert(wv.take(0) =~= Seq::<LoadedView>::empty());
    assert(loaded_views(out@) =~= wv.take(0));
    while i < work.len()
        invariant
            i <= work@.len(),
            wv == loaded_views(work@),
            loaded_views(out@) == wv.take(i as int),
        decreases work@.len() - i,
    {
        let ghost before = out@;
        let copy = copy_loaded(&work[i]);
        out.push(copy);
        proof {
            assert(loaded_views(out@) =~= loaded_views(before).push(wv[i as int]));
            assert(wv.take(i + 1) =~= wv.take(i as int).push(wv[i as int]));
        }
        i = i + 1;
    }
    assert(wv.take(wv.len() as int) =~= wv);
    let ghost before = out@;
    let ghost more = risk@;
    let mut risk = risk;
    out.append(&mut risk);
    assert(loaded_views(out@) =~= loaded_views(before) + loaded_views(more));
    out
}

/// The ignore patterns that hold once the files of the target were written: its
/// own, where it has an ignore file, and those of the working tree otherwise.
pub open spec fn patterns_after(s: StoreView, target: SnapshotView) -> Seq<PatternView> {
    match snapshot_file(s.objects, target.tree, IGNORE_FILE@) {
        Ok(Some((bytes, _))) => if valid_utf8(bytes) {
            ignore_file(decode_utf8(bytes))
        } else {
            Seq::empty()
        },
        _ => s.patterns(),
    }
}

/// The ignore patterns that hold once the files of the target were written. A
/// full restore deletes what they do not hide.
pub fn later_patterns(store: &Store, target: &Snapshot) -> (r: Vec<Pattern>)
    ensures
        patterns_view(r@) == patterns_after(store@, target@),
{
    match file_at(store, target, IGNORE_FILE) {
        Ok(Some((bytes, _))) => match utf8_str(bytes.as_slice()) {
            Some(text) => parse_lines(text),
            None => {
                let none: Vec<Pattern> = Vec::new();
                assert(patterns_view(none@) =~= Seq::<PatternView>::empty());
                none
            },
        },
        _ => store.ignore_patterns(),
    }
}

/// The paths of the files that were seen: those that the walk listed, and the
/// hidden ones.
pub open spec fn seen_paths(work: Seq<LoadedView>, hidden: Seq<LoadedView>) -> Set<Seq<char>> {
    Set::new(|rel: Seq<char>| has_path(work, rel) || has_path(hidden, rel))
}

/// A hidden file is left alone, or some snapshot holds its bytes, or it is at
/// risk.
pub proof fn lemma_at_risk(
    s: StoreView,
    target: SnapshotView,
    paths: Seq<Seq<char>>,
    hidden: Seq<LoadedView>,
    n: nat,
    k: int,
)
    requires
        0 <= k < n <= hidden.len(),
    ensures
        !touched(s, target, paths, hidden[k].rel) || is_safe(s, hidden[k]) || at_risk(
            s,
            target,
            paths,
            hidden,
            n,
        ).contains(hidden[k]),
    decreases n,
{
    let out = at_risk(s, target, paths, hidden, n);
    let before = at_risk(s, target, paths, hidden, (n - 1) as nat);
    if k < n - 1 {
        lemma_at_risk(s, target, paths, hidden, (n - 1) as nat, k);
        if before.contains(hidden[k]) {
            let j = choose|j: int| 0 <= j < before.len() && before[j] == hidden[k];
            assert(out[j] == hidden[k]);
        }
    } else if touched(s, target, paths, hidden[k].rel) && !is_safe(s, hidden[k]) {
        assert(out[out.len() - 1] == hidden[k]);
    }
}

} // verus!
