//! Taking snapshots and reading files back out of them.
//!
//! A snapshot walks the working tree, writes every file as a blob (content
//! deduplicated, so unchanged files cost nothing), builds nested tree objects
//! bottom-up, computes change statistics against the parent snapshot, and
//! records the result under the next turn number.

use vstd::hash_map::StringHashMap;
use vstd::prelude::*;
use vstd::utf8::encode_utf8;

use crate::decimal::{decimal, numeral};
use crate::diff::{binary, counts, diff_ops, is_binary, line_script, split_lines};
use crate::object::{
    clean_text, cleaned, encode_snapshot, entry_views, fetched, lemma_extends, lemma_extends_itself,
    no_changes, object_id, parse_tree, parsed_tree, read, snapshot_text, stored, tag_of, Kind,
    Objects, Snapshot, SnapshotView, Stats, TreeEntry, TreeEntryView,
};
use crate::order::{lemma_sorted_map, sort, sorted_by, Keyed};
use crate::script::{deleted, inserted, lemma_script_bounds, new_total, old_total};
use crate::store::{Store, StoreView};
use crate::text::{
    components, lines_of, lossy_text, pieces, same, split, split_path, texts, utf8_lossy,
};
use crate::tree::{dir_view, insert, planted, tree_id, tree_stored, write_dir, Entry, EntryView};
use crate::walker::WorkFile;

verus! {

/// What a file entry says.
pub struct FileEntryView {
    pub rel: Seq<char>,
    pub id: Seq<char>,
    pub executable: bool,
}

/// A file inside a snapshot: repo-relative path, blob id, exec bit.
#[derive(Debug)]
pub struct FileEntry {
    pub rel: String,
    pub id: String,
    pub executable: bool,
}

impl View for FileEntry {
    type V = FileEntryView;

    open spec fn view(&self) -> FileEntryView {
        FileEntryView { rel: self.rel@, id: self.id@, executable: self.executable }
    }
}

impl Clone for FileEntry {
    fn clone(&self) -> (r: Self)
        ensures
            r@ == self@,
    {
        FileEntry { rel: self.rel.clone(), id: self.id.clone(), executable: self.executable }
    }
}

impl PartialEq for FileEntry {
    fn eq(&self, other: &Self) -> (r: bool) {
        same(self.rel.as_str(), other.rel.as_str()) && same(self.id.as_str(), other.id.as_str())
            && self.executable == other.executable
    }
}

impl vstd::std_specs::cmp::PartialEqSpecImpl for FileEntry {
    open spec fn obeys_eq_spec() -> bool {
        true
    }

    open spec fn eq_spec(&self, other: &Self) -> bool {
        self.rel@ == other.rel@ && self.id@ == other.id@ && self.executable == other.executable
    }
}

impl Eq for FileEntry {

}

impl Keyed for FileEntry {
    open spec fn key(&self) -> Seq<char> {
        self.rel@
    }

    fn key_text(&self) -> (r: &str) {
        self.rel.as_str()
    }
}

/// The contents of a list of file entries.
pub open spec fn file_views(list: Seq<FileEntry>) -> Seq<FileEntryView> {
    list.map_values(|e: FileEntry| e@)
}

/// The entries in the order of their paths.
pub open spec fn by_path(list: Seq<FileEntryView>) -> Seq<FileEntryView> {
    sorted_by(list, |e: FileEntryView| e.rel)
}

/// A path one level down.
pub open spec fn path_below(prefix: Seq<char>, name: Seq<char>) -> Seq<char> {
    if prefix.len() == 0 {
        name
    } else {
        prefix + "/"@ + name
    }
}

/// The files below a tree, with at most `depth` further trees nested in it, or
/// what is wrong with the tree.
pub open spec fn flat_tree(
    objects: Map<Seq<char>, Seq<u8>>,
    tree: Seq<char>,
    prefix: Seq<char>,
    depth: nat,
) -> Result<Seq<FileEntryView>, Seq<char>>
    decreases depth, 0nat,
{
    match fetched(objects, tree) {
        Err(e) => Err(e),
        Ok((kind, payload)) => if kind != Kind::Tree {
            Err("object "@ + tree + " is not a tree"@)
        } else {
            match parsed_tree(payload) {
                Err(e) => Err(e),
                Ok(entries) => if depth == 0 {
                    Err("tree "@ + tree + " is nested too deeply"@)
                } else {
                    flat_entries(objects, entries, entries.len(), prefix, (depth - 1) as nat)
                },
            }
        },
    }
}

/// The files of the first `n` entries of a tree.
pub open spec fn flat_entries(
    objects: Map<Seq<char>, Seq<u8>>,
    entries: Seq<TreeEntryView>,
    n: nat,
    prefix: Seq<char>,
    depth: nat,
) -> Result<Seq<FileEntryView>, Seq<char>>
    decreases depth, n,
{
    if n == 0 || n > entries.len() {
        Ok(Seq::empty())
    } else {
        match flat_entries(objects, entries, (n - 1) as nat, prefix, depth) {
            Err(e) => Err(e),
            Ok(before) => {
                let e = entries[n - 1];
                let rel = path_below(prefix, e.name);
                if e.is_dir() {
                    match flat_tree(objects, e.id, rel, depth) {
                        Err(e) => Err(e),
                        Ok(below) => Ok(before + below),
                    }
                } else {
                    Ok(
                        before.push(
                            FileEntryView { rel, id: e.id, executable: e.is_exec() },
                        ),
                    )
                }
            },
        }
    }
}

/// The files of a snapshot's tree, in the order of their paths. As many trees
/// can be nested as there are objects: only a tree that holds itself is nested
/// deeper.
pub open spec fn snapshot_files(
    objects: Map<Seq<char>, Seq<u8>>,
    tree: Seq<char>,
) -> Result<Seq<FileEntryView>, Seq<char>> {
    match flat_tree(objects, tree, Seq::empty(), objects.len()) {
        Ok(list) => Ok(by_path(list)),
        Err(e) => Err(e),
    }
}

pub(crate) fn below(prefix: &str, name: &str) -> (r: String)
    ensures
        r@ == path_below(prefix@, name@),
{
    if prefix.is_empty() {
        name.to_owned()
    } else {
        let mut s = prefix.to_owned();
        s.append("/");
        s.append(name);
        s
    }
}

proof fn lemma_flat_error(
    objects: Map<Seq<char>, Seq<u8>>,
    entries: Seq<TreeEntryView>,
    n: nat,
    m: nat,
    prefix: Seq<char>,
    depth: nat,
)
    requires
        n <= m <= entries.len(),
        flat_entries(objects, entries, n, prefix, depth) is Err,
    ensures
        flat_entries(objects, entries, m, prefix, depth) == flat_entries(
            objects,
            entries,
            n,
            prefix,
            depth,
        ),
    decreases m,
{
    if n < m {
        lemma_flat_error(objects, entries, n, (m - 1) as nat, prefix, depth);
    }
}

fn collect(
    objects: &Objects,
    tree: &str,
    prefix: &str,
    depth: usize,
    out: &mut Vec<FileEntry>,
) -> (r: Result<(), String>)
    ensures
        match r {
            Ok(_) => match flat_tree(objects@, tree@, prefix@, depth as nat) {
                Ok(list) => file_views(final(out)@) == file_views(old(out)@) + list,
                Err(_) => false,
            },
            Err(e) => flat_tree(objects@, tree@, prefix@, depth as nat) == Err::<
                Seq<FileEntryView>,
                Seq<char>,
            >(e@),
        },
    decreases depth,
{
    let (kind, payload) = read(objects, tree)?;
    if kind != Kind::Tree {
        let mut e = "object ".to_string();
        e.append(tree);
        e.append(" is not a tree");
        return Err(e);
    }
    let entries = parse_tree(payload.as_slice())?;
    if depth == 0 {
        let mut e = "tree ".to_string();
        e.append(tree);
        e.append(" is nested too deeply");
        return Err(e);
    }
    let ghost views = entry_views(entries@);
    let ghost start = file_views(out@);
    let ghost d = (depth - 1) as nat;
    let mut i: usize = 0;
    assert(start + Seq::<FileEntryView>::empty() =~= start);
    while i < entries.len()
        invariant
            i <= entries@.len(),
            views == entry_views(entries@),
            depth > 0,
            d == depth - 1,
            match flat_entries(objects@, views, i as nat, prefix@, d) {
                Ok(list) => file_views(out@) == start + list,
                Err(_) => false,
            },
            flat_tree(objects@, tree@, prefix@, depth as nat) == flat_entries(
                objects@,
                views,
                views.len(),
                prefix@,
                d,
            ),
        decreases entries@.len() - i,
    {
        let e = &entries[i];
        let ghost before = file_views(out@);
        let ghost list = flat_entries(objects@, views, i as nat, prefix@, d)->Ok_0;
        assert(views[i as int] == e@);
        let rel = below(prefix, e.name.as_str());
        if e.is_dir() {
            match collect(objects, e.id.as_str(), rel.as_str(), depth - 1, out) {
                Ok(_) => {
                    proof {
                        let sub = flat_tree(objects@, e.id@, rel@, d)->Ok_0;
                        assert(start + list + sub =~= start + (list + sub));
                    }
                },
                Err(msg) => {
                    proof {
                        lemma_flat_error(objects@, views, (i + 1) as nat, views.len(), prefix@, d);
                    }
                    return Err(msg);
                },
            }
        } else {
            let file = FileEntry { executable: e.is_exec(), id: e.id.clone(), rel };
            let ghost old_out = out@;
            out.push(file);
            proof {
                assert(file_views(out@) =~= file_views(old_out).push(file@));
                assert((start + list).push(file@) =~= start + list.push(file@));
            }
        }
        i = i + 1;
    }
    Ok(())
}

/// Flatten a snapshot's tree into sorted file entries.
pub fn files_of(store: &Store, snap: &Snapshot) -> (r: Result<Vec<FileEntry>, String>)
    ensures
        match r {
            Ok(list) => snapshot_files(store@.objects, snap@.tree) == Ok::<
                Seq<FileEntryView>,
                Seq<char>,
            >(file_views(list@)),
            Err(e) => snapshot_files(store@.objects, snap@.tree) == Err::<
                Seq<FileEntryView>,
                Seq<char>,
            >(e@),
        },
{
    let objects = store.objects();
    let mut out: Vec<FileEntry> = Vec::new();
    proof {
        reveal_strlit("");
        assert(""@ =~= Seq::<char>::empty());
    }
    collect(objects, snap.tree.as_str(), "", objects.count(), &mut out)?;
    proof {
        let list = flat_tree(objects@, snap.tree@, ""@, objects@.len())->Ok_0;
        assert(file_views(out@) =~= list);
        lemma_sorted_map(
            out@,
            |e: FileEntry| e.key(),
            |e: FileEntry| e@,
            |e: FileEntryView| e.rel,
        );
    }
    Ok(sort(out))
}

/// The first entry of a tree with a given name.
pub open spec fn entry_named(entries: Seq<TreeEntryView>, name: Seq<char>) -> Option<TreeEntryView>
    decreases entries.len(),
{
    if entries.len() == 0 {
        None
    } else if entries[0].name == name {
        Some(entries[0])
    } else {
        entry_named(entries.drop_first(), name)
    }
}

/// What the path `path` below a tree leads to: the bytes and exec bit of a
/// file, or nothing.
pub open spec fn file_below(
    objects: Map<Seq<char>, Seq<u8>>,
    tree: Seq<char>,
    path: Seq<Seq<char>>,
    rel: Seq<char>,
) -> Result<Option<(Seq<u8>, bool)>, Seq<char>>
    decreases path.len(),
{
    if path.len() == 0 {
        Ok(None)
    } else {
        match fetched(objects, tree) {
            Err(e) => Err(e),
            Ok((kind, payload)) => if kind != Kind::Tree {
                Ok(None)
            } else {
                match parsed_tree(payload) {
                    Err(e) => Err(e),
                    Ok(entries) => match entry_named(entries, path[0]) {
                        None => Ok(None),
                        Some(e) => if path.len() > 1 {
                            if e.is_dir() {
                                file_below(objects, e.id, path.drop_first(), rel)
                            } else {
                                Ok(None)
                            }
                        } else if e.is_dir() {
                            Ok(None)
                        } else {
                            match fetched(objects, e.id) {
                                Err(e) => Err(e),
                                Ok((kind, bytes)) => if kind != Kind::Blob {
                                    Err(
                                        "tree entry "@ + rel + " points at a "@ + tag_of(kind)
                                            + " object"@,
                                    )
                                } else {
                                    Ok(Some((bytes, e.is_exec())))
                                },
                            }
                        },
                    },
                }
            },
        }
    }
}

/// What a path leads to in a snapshot.
pub open spec fn snapshot_file(
    objects: Map<Seq<char>, Seq<u8>>,
    tree: Seq<char>,
    rel: Seq<char>,
) -> Result<Option<(Seq<u8>, bool)>, Seq<char>> {
    file_below(objects, tree, components(rel), rel)
}

/// The contents of what `file_at` returns.
pub open spec fn file_result(r: Result<Option<(Vec<u8>, bool)>, String>) -> Result<
    Option<(Seq<u8>, bool)>,
    Seq<char>,
> {
    match r {
        Ok(Some((bytes, executable))) => Ok(Some((bytes@, executable))),
        Ok(None) => Ok(None),
        Err(e) => Err(e@),
    }
}

fn find_entry(entries: &Vec<TreeEntry>, name: &str) -> (r: Option<usize>)
    ensures
        match r {
            Some(i) => i < entries@.len() && entry_named(entry_views(entries@), name@) == Some(
                entries@[i as int]@,
            ),
            None => entry_named(entry_views(entries@), name@) is None,
        },
{
    let ghost v = entry_views(entries@);
    let mut i: usize = 0;
    assert(v.skip(0) =~= v);
    while i < entries.len()
        invariant
            i <= entries@.len(),
            v == entry_views(entries@),
            entry_named(v, name@) == entry_named(v.skip(i as int), name@),
        decreases entries@.len() - i,
    {
        assert(v.skip(i as int)[0] == entries@[i as int]@);
        if same(entries[i].name.as_str(), name) {
            return Some(i);
        }
        assert(v.skip(i as int).drop_first() =~= v.skip(i + 1));
        i = i + 1;
    }
    None
}

/// Read one file's bytes (and exec bit) out of a snapshot, if present.
pub fn file_at(store: &Store, snap: &Snapshot, rel: &str) -> (r: Result<
    Option<(Vec<u8>, bool)>,
    String,
>)
    ensures
        file_result(r) == snapshot_file(store@.objects, snap@.tree, rel@),
{
    let objects = store.objects();
    let comps = split_path(rel);
    let ghost path = components(rel@);
    let n: usize = comps.len();
    assert(texts(comps@).len() == n);
    let mut tree = snap.tree.clone();
    let mut i: usize = 0;
    assert(path.skip(0) =~= path);
    while i < n
        invariant
            i <= n,
            n == comps@.len(),
            objects@ == store@.objects,
            texts(comps@) == path,
            snapshot_file(store@.objects, snap@.tree, rel@) == file_below(
                objects@,
                tree@,
                path.skip(i as int),
                rel@,
            ),
        decreases n - i,
    {
        let ghost here = path.skip(i as int);
        assert(here[0] == comps@[i as int]@);
        assert(here.drop_first() =~= path.skip(i + 1));
        let (kind, payload) = read(objects, tree.as_str())?;
        if kind != Kind::Tree {
            return Ok(None);
        }
        let entries = parse_tree(payload.as_slice())?;
        let k: usize = match find_entry(&entries, comps[i]) {
            Some(k) => k,
            None => {
                return Ok(None);
            },
        };
        let e = &entries[k];
        if i == n - 1 {
            if e.is_dir() {
                return Ok(None);
            }
            let (kind, bytes) = read(objects, e.id.as_str())?;
            if kind != Kind::Blob {
                let mut msg = "tree entry ".to_string();
                msg.append(rel);
                msg.append(" points at a ");
                msg.append(kind.tag());
                msg.append(" object");
                return Err(msg);
            }
            return Ok(Some((bytes, e.is_exec())));
        }
        if !e.is_dir() {
            return Ok(None);
        }
        tree = e.id.clone();
        i = i + 1;
    }
    Ok(None)
}

/// Lines added and removed between two texts.
pub open spec fn changed_lines(old: Seq<char>, new: Seq<char>) -> (nat, nat) {
    let ops = line_script(lines_of(old), lines_of(new));
    (inserted(ops), deleted(ops))
}

/// The lines of a blob; a binary one has none.
pub open spec fn blob_lines(objects: Map<Seq<char>, Seq<u8>>, id: Seq<char>) -> Result<
    nat,
    Seq<char>,
> {
    match fetched(objects, id) {
        Err(e) => Err(e),
        Ok((_, bytes)) => if binary(bytes) {
            Ok(0)
        } else {
            Ok(lines_of(lossy_text(bytes)).len())
        },
    }
}

/// Lines added and removed between two blobs; where one is binary, none are.
pub open spec fn blob_changes(
    objects: Map<Seq<char>, Seq<u8>>,
    old_id: Seq<char>,
    new_id: Seq<char>,
) -> Result<(nat, nat), Seq<char>> {
    match fetched(objects, old_id) {
        Err(e) => Err(e),
        Ok((_, old)) => match fetched(objects, new_id) {
            Err(e) => Err(e),
            Ok((_, new)) => if binary(old) || binary(new) {
                Ok((0, 0))
            } else {
                Ok(changed_lines(lossy_text(old), lossy_text(new)))
            },
        },
    }
}

/// Lines added and removed between two texts.
pub fn line_changes(old: &str, new: &str) -> (r: (u64, u64))
    ensures
        r.0 == changed_lines(old@, new@).0,
        r.1 == changed_lines(old@, new@).1,
{
    let (old_lines, _) = split_lines(old);
    let (new_lines, _) = split_lines(new);
    let ops = diff_ops(old_lines.as_slice(), new_lines.as_slice());
    proof {
        lemma_script_bounds(ops@);
        assert(old_total(ops@) == old_lines.len());
        assert(new_total(ops@) == new_lines.len());
    }
    let (add, rem) = counts(ops.as_slice());
    (add as u64, rem as u64)
}

fn line_count(objects: &Objects, id: &str) -> (r: Result<u64, String>)
    ensures
        match r {
            Ok(n) => blob_lines(objects@, id@) == Ok::<nat, Seq<char>>(n as nat),
            Err(e) => blob_lines(objects@, id@) == Err::<nat, Seq<char>>(e@),
        },
{
    let (_, bytes) = read(objects, id)?;
    if is_binary(bytes.as_slice()) {
        return Ok(0);
    }
    let text = utf8_lossy(bytes.as_slice());
    let (lines, _) = split_lines(text.as_str());
    assert(texts(lines@).len() == lines@.len());
    Ok(lines.len() as u64)
}

fn line_delta(objects: &Objects, old_id: &str, new_id: &str) -> (r: Result<(u64, u64), String>)
    ensures
        match r {
            Ok((add, rem)) => blob_changes(objects@, old_id@, new_id@) == Ok::<
                (nat, nat),
                Seq<char>,
            >((add as nat, rem as nat)),
            Err(e) => blob_changes(objects@, old_id@, new_id@) == Err::<(nat, nat), Seq<char>>(e@),
        },
{
    let (_, old_bytes) = read(objects, old_id)?;
    let (_, new_bytes) = read(objects, new_id)?;
    if is_binary(old_bytes.as_slice()) || is_binary(new_bytes.as_slice()) {
        return Ok((0, 0));
    }
    let old_text = utf8_lossy(old_bytes.as_slice());
    let new_text = utf8_lossy(new_bytes.as_slice());
    Ok(line_changes(old_text.as_str(), new_text.as_str()))
}

/// Where the last entry with a path stands; -1 where there is none.
pub open spec fn last_index(list: Seq<FileEntryView>, rel: Seq<char>) -> int
    decreases list.len(),
{
    if list.len() == 0 {
        -1
    } else if list.last().rel == rel {
        list.len() - 1
    } else {
        last_index(list.drop_last(), rel)
    }
}

/// The entry of a path: the last one with it.
pub open spec fn entry_for(list: Seq<FileEntryView>, rel: Seq<char>) -> Option<FileEntryView> {
    let i = last_index(list, rel);
    if i >= 0 {
        Some(list[i])
    } else {
        None
    }
}

/// A count that stops at the largest `u64`.
pub open spec fn capped_sum(a: u64, b: nat) -> u64 {
    if a + b > u64::MAX {
        u64::MAX
    } else {
        (a + b) as u64
    }
}

/// The statistics with the change of one path that is in the new list.
pub open spec fn stats_with_new(
    objects: Map<Seq<char>, Seq<u8>>,
    st: Stats,
    prev: Option<FileEntryView>,
    e: FileEntryView,
) -> Result<Stats, Seq<char>> {
    match prev {
        None => match blob_lines(objects, e.id) {
            Err(msg) => Err(msg),
            Ok(n) => Ok(
                Stats {
                    files_added: (st.files_added + 1) as u64,
                    lines_added: capped_sum(st.lines_added, n),
                    ..st
                },
            ),
        },
        Some(p) => if p.id != e.id {
            match blob_changes(objects, p.id, e.id) {
                Err(msg) => Err(msg),
                Ok((add, rem)) => Ok(
                    Stats {
                        files_modified: (st.files_modified + 1) as u64,
                        lines_added: capped_sum(st.lines_added, add),
                        lines_removed: capped_sum(st.lines_removed, rem),
                        ..st
                    },
                ),
            }
        } else if p.executable != e.executable {
            Ok(Stats { files_modified: (st.files_modified + 1) as u64, ..st })
        } else {
            Ok(st)
        },
    }
}

/// The statistics of the first `n` entries of the new list.
pub open spec fn stats_of_new(
    objects: Map<Seq<char>, Seq<u8>>,
    old: Seq<FileEntryView>,
    new: Seq<FileEntryView>,
    n: nat,
) -> Result<Stats, Seq<char>>
    decreases n,
{
    if n == 0 || n > new.len() {
        Ok(no_changes())
    } else {
        match stats_of_new(objects, old, new, (n - 1) as nat) {
            Err(e) => Err(e),
            Ok(st) => if last_index(new, new[n - 1].rel) != n - 1 {
                Ok(st)
            } else {
                stats_with_new(objects, st, entry_for(old, new[n - 1].rel), new[n - 1])
            },
        }
    }
}

/// The statistics with the first `n` entries of the old list taken in as well.
pub open spec fn stats_of_old(
    objects: Map<Seq<char>, Seq<u8>>,
    old: Seq<FileEntryView>,
    new: Seq<FileEntryView>,
    n: nat,
) -> Result<Stats, Seq<char>>
    decreases n,
{
    if n == 0 || n > old.len() {
        stats_of_new(objects, old, new, new.len())
    } else {
        match stats_of_old(objects, old, new, (n - 1) as nat) {
            Err(e) => Err(e),
            Ok(st) => if last_index(old, old[n - 1].rel) != n - 1 || last_index(
                new,
                old[n - 1].rel,
            ) >= 0 {
                Ok(st)
            } else {
                match blob_lines(objects, old[n - 1].id) {
                    Err(e) => Err(e),
                    Ok(lines) => Ok(
                        Stats {
                            files_deleted: (st.files_deleted + 1) as u64,
                            lines_removed: capped_sum(st.lines_removed, lines),
                            ..st
                        },
                    ),
                }
            },
        }
    }
}

/// Change statistics between two lists of files, each in the order of paths.
pub open spec fn file_stats(
    objects: Map<Seq<char>, Seq<u8>>,
    old: Seq<FileEntryView>,
    new: Seq<FileEntryView>,
) -> Result<Stats, Seq<char>> {
    stats_of_old(objects, old, new, old.len())
}

pub proof fn lemma_last_index(list: Seq<FileEntryView>, rel: Seq<char>)
    ensures
        -1 <= last_index(list, rel) < list.len(),
        last_index(list, rel) >= 0 ==> list[last_index(list, rel)].rel == rel,
        forall|j: int| last_index(list, rel) < j < list.len() ==> (#[trigger] list[j]).rel != rel,
    decreases list.len(),
{
    if list.len() > 0 && list.last().rel != rel {
        lemma_last_index(list.drop_last(), rel);
        assert forall|j: int| last_index(list, rel) < j < list.len() implies (
        #[trigger] list[j]).rel != rel by {
            if j < list.len() - 1 {
                assert(list[j] == list.drop_last()[j]);
            }
        }
    }
}

/// The place of the last entry of each path.
pub fn index_paths(list: &Vec<FileEntry>) -> (m: StringHashMap<usize>)
    ensures
        forall|rel: Seq<char>| #[trigger]
            m@.contains_key(rel) <==> last_index(file_views(list@), rel) >= 0,
        forall|rel: Seq<char>| #[trigger]
            m@.contains_key(rel) ==> m@[rel] == last_index(file_views(list@), rel) && m@[rel]
                < list@.len(),
{
    let ghost v = file_views(list@);
    let mut m: StringHashMap<usize> = StringHashMap::new();
    let mut i: usize = 0;
    assert(v.take(0) =~= Seq::<FileEntryView>::empty());
    while i < list.len()
        invariant
            i <= list@.len(),
            v == file_views(list@),
            forall|rel: Seq<char>| #[trigger]
                m@.contains_key(rel) <==> last_index(v.take(i as int), rel) >= 0,
            forall|rel: Seq<char>| #[trigger]
                m@.contains_key(rel) ==> m@[rel] == last_index(v.take(i as int), rel) && m@[rel] < i,
        decreases list@.len() - i,
    {
        proof {
            assert(v.take(i + 1).drop_last() =~= v.take(i as int));
            assert(v.take(i + 1).last() == list@[i as int]@);
        }
        m.insert(list[i].rel.clone(), i);
        i = i + 1;
    }
    assert(v.take(v.len() as int) =~= v);
    m
}

proof fn lemma_stats_error_new(
    objects: Map<Seq<char>, Seq<u8>>,
    old: Seq<FileEntryView>,
    new: Seq<FileEntryView>,
    n: nat,
    m: nat,
)
    requires
        n <= m <= new.len(),
        stats_of_new(objects, old, new, n) is Err,
    ensures
        stats_of_new(objects, old, new, m) == stats_of_new(objects, old, new, n),
    decreases m,
{
    if n < m {
        lemma_stats_error_new(objects, old, new, n, (m - 1) as nat);
    }
}

proof fn lemma_stats_error_old(
    objects: Map<Seq<char>, Seq<u8>>,
    old: Seq<FileEntryView>,
    new: Seq<FileEntryView>,
    n: nat,
    m: nat,
)
    requires
        n <= m <= old.len(),
        stats_of_old(objects, old, new, n) is Err,
    ensures
        stats_of_old(objects, old, new, m) == stats_of_old(objects, old, new, n),
    decreases m,
{
    if n < m {
        lemma_stats_error_old(objects, old, new, n, (m - 1) as nat);
    }
}

/// Change statistics between two flat file lists (line counts skip binaries).
pub fn stats_between(objects: &Objects, old: &Vec<FileEntry>, new: &Vec<FileEntry>) -> (r: Result<
    Stats,
    String,
>)
    ensures
        match r {
            Ok(st) => file_stats(objects@, file_views(old@), file_views(new@)) == Ok::<
                Stats,
                Seq<char>,
            >(st),
            Err(e) => file_stats(objects@, file_views(old@), file_views(new@)) == Err::<
                Stats,
                Seq<char>,
            >(e@),
        },
{
    let ghost ov = file_views(old@);
    let ghost nv = file_views(new@);
    let old_at = index_paths(old);
    let new_at = index_paths(new);
    let mut st = Stats::default();
    let mut i: usize = 0;
    while i < new.len()
        invariant
            i <= new@.len(),
            ov == file_views(old@),
            nv == file_views(new@),
            forall|rel: Seq<char>| #[trigger]
                old_at@.contains_key(rel) <==> last_index(ov, rel) >= 0,
            forall|rel: Seq<char>| #[trigger]
                old_at@.contains_key(rel) ==> old_at@[rel] == last_index(ov, rel) && old_at@[rel]
                    < old@.len(),
            forall|rel: Seq<char>| #[trigger]
                new_at@.contains_key(rel) <==> last_index(nv, rel) >= 0,
            forall|rel: Seq<char>| #[trigger]
                new_at@.contains_key(rel) ==> new_at@[rel] == last_index(nv, rel),
            stats_of_new(objects@, ov, nv, i as nat) == Ok::<Stats, Seq<char>>(st),
            st.files_added <= i,
            st.files_modified <= i,
            st.files_deleted == 0,
        decreases new@.len() - i,
    {
        let e = &new[i];
        assert(nv[i as int] == e@);
        proof {
            lemma_last_index(nv, e.rel@);
        }
        let current: bool = match new_at.get(e.rel.as_str()) {
            Some(k) => *k == i,
            None => false,
        };
        if current {
            match old_at.get(e.rel.as_str()) {
                None => {
                    match line_count(objects, e.id.as_str()) {
                        Ok(n) => {
                            st.files_added = st.files_added + 1;
                            st.lines_added = st.lines_added.saturating_add(n);
                        },
                        Err(msg) => {
                            proof {
                                lemma_stats_error_new(objects@, ov, nv, (i + 1) as nat, nv.len());
                                lemma_stats_error_old(objects@, ov, nv, 0, ov.len());
                            }
                            return Err(msg);
                        },
                    }
                },
                Some(k) => {
                    let prev = &old[*k];
                    assert(ov[*k as int] == prev@);
                    if !same(prev.id.as_str(), e.id.as_str()) {
                        match line_delta(objects, prev.id.as_str(), e.id.as_str()) {
                            Ok((add, rem)) => {
                                st.files_modified = st.files_modified + 1;
                                st.lines_added = st.lines_added.saturating_add(add);
                                st.lines_removed = st.lines_removed.saturating_add(rem);
                            },
                            Err(msg) => {
                                proof {
                                    lemma_stats_error_new(
                                        objects@,
                                        ov,
                                        nv,
                                        (i + 1) as nat,
                                        nv.len(),
                                    );
                                    lemma_stats_error_old(objects@, ov, nv, 0, ov.len());
                                }
                                return Err(msg);
                            },
                        }
                    } else if prev.executable != e.executable {
                        st.files_modified = st.files_modified + 1;
                    }
                },
            }
        }
        i = i + 1;
    }
    let mut j: usize = 0;
    while j < old.len()
        invariant
            j <= old@.len(),
            ov == file_views(old@),
            nv == file_views(new@),
            forall|rel: Seq<char>| #[trigger]
                old_at@.contains_key(rel) <==> last_index(ov, rel) >= 0,
            forall|rel: Seq<char>| #[trigger]
                old_at@.contains_key(rel) ==> old_at@[rel] == last_index(ov, rel) && old_at@[rel]
                    < old@.len(),
            forall|rel: Seq<char>| #[trigger]
                new_at@.contains_key(rel) <==> last_index(nv, rel) >= 0,
            stats_of_old(objects@, ov, nv, j as nat) == Ok::<Stats, Seq<char>>(st),
            st.files_deleted <= j,
        decreases old@.len() - j,
    {
        let e = &old[j];
        assert(ov[j as int] == e@);
        proof {
            lemma_last_index(ov, e.rel@);
        }
        let current: bool = match old_at.get(e.rel.as_str()) {
            Some(k) => *k == j,
            None => false,
        };
        if current && !new_at.contains_key(e.rel.as_str()) {
            match line_count(objects, e.id.as_str()) {
                Ok(n) => {
                    st.files_deleted = st.files_deleted + 1;
                    st.lines_removed = st.lines_removed.saturating_add(n);
                },
                Err(msg) => {
                    proof {
                        lemma_stats_error_old(objects@, ov, nv, (j + 1) as nat, ov.len());
                    }
                    return Err(msg);
                },
            }
        }
        j = j + 1;
    }
    Ok(st)
}

/// What a file of the working tree holds.
pub struct LoadedView {
    pub rel: Seq<char>,
    pub abs: Seq<char>,
    pub executable: bool,
    pub data: Result<Seq<u8>, Seq<char>>,
}

/// A file of the working tree together with its bytes, or with the reason why
/// they cannot be read.
#[derive(Debug)]
pub struct LoadedFile {
    pub file: WorkFile,
    pub data: Result<Vec<u8>, String>,
}

impl View for LoadedFile {
    type V = LoadedView;

    open spec fn view(&self) -> LoadedView {
        LoadedView {
            rel: self.file.rel@,
            abs: self.file.abs@,
            executable: self.file.executable,
            data: match self.data {
                Ok(bytes) => Ok(bytes@),
                Err(e) => Err(e@),
            },
        }
    }
}

/// The contents of a list of loaded files.
pub open spec fn loaded_views(list: Seq<LoadedFile>) -> Seq<LoadedView> {
    list.map_values(|f: LoadedFile| f@)
}

/// The message for a file that cannot be read.
pub open spec fn unreadable(f: LoadedView, why: Seq<char>) -> Seq<char> {
    "cannot read "@ + f.abs + ": "@ + why
}

/// The entry of a loaded file.
pub open spec fn loaded_entry(f: LoadedView, bytes: Seq<u8>) -> FileEntryView {
    FileEntryView { rel: f.rel, id: object_id(Kind::Blob, bytes), executable: f.executable }
}

/// The object table after the files were stored as blobs, and their entries.
/// The first file that cannot be read ends it.
pub open spec fn blobs_stored(objects: Map<Seq<char>, Seq<u8>>, work: Seq<LoadedView>) -> (
    Map<Seq<char>, Seq<u8>>,
    Result<Seq<FileEntryView>, Seq<char>>,
)
    decreases work.len(),
{
    if work.len() == 0 {
        (objects, Ok(Seq::empty()))
    } else {
        let (before, r) = blobs_stored(objects, work.drop_last());
        let f = work.last();
        match r {
            Err(e) => (before, Err(e)),
            Ok(list) => match f.data {
                Err(why) => (before, Err(unreadable(f, why))),
                Ok(bytes) => (
                    stored(before, Kind::Blob, bytes),
                    Ok(list.push(loaded_entry(f, bytes))),
                ),
            },
        }
    }
}

/// The directory tree of the first `n` entries, or the first path conflict.
pub open spec fn grown_tree(entries: Seq<FileEntryView>, n: nat) -> Result<
    Seq<EntryView>,
    Seq<char>,
>
    decreases n,
{
    if n == 0 || n > entries.len() {
        Ok(Seq::empty())
    } else {
        match grown_tree(entries, (n - 1) as nat) {
            Err(e) => Err(e),
            Ok(d) => {
                let e = entries[n - 1];
                planted(d, pieces(e.rel, '/'), e.id, e.executable)
            },
        }
    }
}

/// The number of the next turn: the one that was asked for, which must be
/// positive and greater than the latest, or the one after the latest.
pub open spec fn next_number(latest: Option<u64>, wanted: Option<u64>) -> Result<u64, Seq<char>> {
    match wanted {
        Some(n) => if n == 0 {
            Err("turn numbers start at 1"@)
        } else {
            match latest {
                Some(l) => if n <= l {
                    Err(
                        "requested turn "@ + numeral(n as nat)
                            + " is not greater than the latest turn "@ + numeral(l as nat),
                    )
                } else {
                    Ok(n)
                },
                None => Ok(n),
            }
        },
        None => match latest {
            Some(l) => Ok((l + 1) as u64),
            None => Ok(1),
        },
    }
}

/// The number of the next turn.
pub fn next_turn(latest: Option<u64>, wanted: Option<u64>) -> (r: Result<u64, String>)
    requires
        wanted is None ==> latest != Some(u64::MAX),
    ensures
        match r {
            Ok(n) => next_number(latest, wanted) == Ok::<u64, Seq<char>>(n),
            Err(e) => next_number(latest, wanted) == Err::<u64, Seq<char>>(e@),
        },
{
    match wanted {
        Some(n) => {
            if n == 0 {
                return Err("turn numbers start at 1".to_string());
            }
            match latest {
                Some(l) => {
                    if n <= l {
                        let mut e = "requested turn ".to_string();
                        let s = decimal(n);
                        e.append(s.as_str());
                        e.append(" is not greater than the latest turn ");
                        let s = decimal(l);
                        e.append(s.as_str());
                        return Err(e);
                    }
                },
                None => {},
            }
            Ok(n)
        },
        None => match latest {
            Some(l) => Ok(l + 1),
            None => Ok(1),
        },
    }
}

/// The id and the files of the latest turn's snapshot; none without a turn.
pub open spec fn parent_state(s: StoreView) -> Result<
    (Option<Seq<char>>, Seq<FileEntryView>),
    Seq<char>,
> {
    match s.latest() {
        None => Ok((None, Seq::empty())),
        Some(n) => match s.snapshot(n) {
            Err(e) => Err(e),
            Ok(parent) => match snapshot_files(s.objects, parent.tree) {
                Err(e) => Err(e),
                Ok(files) => Ok((Some(parent.id), files)),
            },
        },
    }
}

/// The store after a record was stored and its turn ref written.
pub open spec fn recorded_state(s: StoreView, record: SnapshotView) -> (
    StoreView,
    Result<SnapshotView, Seq<char>>,
) {
    let payload = encode_utf8(snapshot_text(record));
    let id = object_id(Kind::Snapshot, payload);
    let after = StoreView { objects: stored(s.objects, Kind::Snapshot, payload), ..s };
    if after.recorded(record.turn) {
        (after, Err("turn "@ + numeral(record.turn as nat) + " is already recorded"@))
    } else {
        (after.with_turn(record.turn, id), Ok(SnapshotView { id, ..record }))
    }
}

/// The store after the entries of the working tree, whose blobs it holds, were
/// recorded as a turn.
pub open spec fn entries_taken(
    s: StoreView,
    entries: Seq<FileEntryView>,
    label: Seq<char>,
    agent: Seq<char>,
    wanted: Option<u64>,
    time: i64,
) -> (StoreView, Result<SnapshotView, Seq<char>>) {
    match grown_tree(entries, entries.len()) {
        Err(e) => (s, Err(e)),
        Ok(d) => {
            let s2 = StoreView { objects: tree_stored(s.objects, d), ..s };
            match parent_state(s2) {
                Err(e) => (s2, Err(e)),
                Ok((parent, old_files)) => match next_number(s2.latest(), wanted) {
                    Err(e) => (s2, Err(e)),
                    Ok(turn) => match file_stats(s2.objects, old_files, entries) {
                        Err(e) => (s2, Err(e)),
                        Ok(stats) => recorded_state(
                            s2,
                            SnapshotView {
                                id: Seq::empty(),
                                tree: tree_id(d),
                                parent,
                                turn,
                                time,
                                stats,
                                agent: cleaned(agent),
                                label: cleaned(label),
                            },
                        ),
                    },
                },
            }
        },
    }
}

/// The store after a snapshot of the working tree, and the record or the
/// reason why there is none.
pub open spec fn taken(
    s: StoreView,
    work: Seq<LoadedView>,
    label: Seq<char>,
    agent: Seq<char>,
    wanted: Option<u64>,
    time: i64,
) -> (StoreView, Result<SnapshotView, Seq<char>>) {
    let (objects, r) = blobs_stored(s.objects, work);
    let s1 = StoreView { objects, ..s };
    match r {
        Err(e) => (s1, Err(e)),
        Ok(entries) => entries_taken(s1, entries, label, agent, wanted, time),
    }
}

proof fn lemma_blobs_error(objects: Map<Seq<char>, Seq<u8>>, work: Seq<LoadedView>, n: int)
    requires
        0 <= n <= work.len(),
        blobs_stored(objects, work.take(n)).1 is Err,
    ensures
        blobs_stored(objects, work) == blobs_stored(objects, work.take(n)),
    decreases work.len() - n,
{
    if n < work.len() {
        assert(work.take(n + 1).drop_last() =~= work.take(n));
        lemma_blobs_error(objects, work, n + 1);
    } else {
        assert(work.take(n) =~= work);
    }
}

fn write_blobs(objects: &mut Objects, work: &[LoadedFile]) -> (r: Result<Vec<FileEntry>, String>)
    ensures
        final(objects)@ == blobs_stored(old(objects)@, loaded_views(work@)).0,
        final(objects).extends(*old(objects)),
        match r {
            Ok(list) => blobs_stored(old(objects)@, loaded_views(work@)).1 == Ok::<
                Seq<FileEntryView>,
                Seq<char>,
            >(file_views(list@)),
            Err(e) => blobs_stored(old(objects)@, loaded_views(work@)).1 == Err::<
                Seq<FileEntryView>,
                Seq<char>,
            >(e@),
        },
{
    let ghost v = loaded_views(work@);
    let ghost start = objects@;
    proof {
        lemma_extends_itself(*objects);
    }
    let mut entries: Vec<FileEntry> = Vec::new();
    let mut i: usize = 0;
    assert(v.take(0) =~= Seq::<LoadedView>::empty());
    assert(file_views(entries@) =~= Seq::<FileEntryView>::empty());
    while i < work.len()
        invariant
            i <= work@.len(),
            v == loaded_views(work@),
            start == old(objects)@,
            objects.extends(*old(objects)),
            blobs_stored(start, v.take(i as int)) == (
                objects@,
                Ok::<Seq<FileEntryView>, Seq<char>>(file_views(entries@)),
            ),
        decreases work@.len() - i,
    {
        let f = &work[i];
        proof {
            assert(v.take(i + 1).drop_last() =~= v.take(i as int));
            assert(v.take(i + 1).last() == f@);
        }
        match &f.data {
            Err(why) => {
                proof {
                    lemma_blobs_error(start, v, i + 1);
                }
                let mut e = "cannot read ".to_string();
                e.append(f.file.abs.as_str());
                e.append(": ");
                e.append(why.as_str());
                return Err(e);
            },
            Ok(bytes) => {
                let ghost so_far = *objects;
                let id = crate::object::write(objects, Kind::Blob, bytes.as_slice());
                proof {
                    lemma_extends(*old(objects), so_far, *objects);
                }
                let entry = FileEntry {
                    rel: f.file.rel.clone(),
                    id,
                    executable: f.file.executable,
                };
                let ghost before = entries@;
                entries.push(entry);
                assert(file_views(entries@) =~= file_views(before).push(entry@));
            },
        }
        i = i + 1;
    }
    assert(v.take(v.len() as int) =~= v);
    Ok(entries)
}

proof fn lemma_grown_error(entries: Seq<FileEntryView>, n: nat, m: nat)
    requires
        n <= m <= entries.len(),
        grown_tree(entries, n) is Err,
    ensures
        grown_tree(entries, m) == grown_tree(entries, n),
    decreases m,
{
    if n < m {
        lemma_grown_error(entries, n, (m - 1) as nat);
    }
}

fn write_tree(objects: &mut Objects, entries: &Vec<FileEntry>) -> (r: Result<String, String>)
    ensures
        match r {
            Ok(id) => match grown_tree(file_views(entries@), entries@.len()) {
                Ok(d) => id@ == tree_id(d) && final(objects)@ == tree_stored(old(objects)@, d),
                Err(_) => false,
            },
            Err(e) => final(objects)@ == old(objects)@ && grown_tree(
                file_views(entries@),
                entries@.len(),
            ) == Err::<Seq<EntryView>, Seq<char>>(e@),
        },
        final(objects).extends(*old(objects)),
{
    proof {
        lemma_extends_itself(*objects);
    }
    let ghost v = file_views(entries@);
    let mut root: Vec<Entry> = Vec::new();
    let mut i: usize = 0;
    assert(dir_view(root@) =~= Seq::<EntryView>::empty());
    while i < entries.len()
        invariant
            i <= entries@.len(),
            v == file_views(entries@),
            *objects == *old(objects),
            grown_tree(v, i as nat) == Ok::<Seq<EntryView>, Seq<char>>(dir_view(root@)),
        decreases entries@.len() - i,
    {
        let e = &entries[i];
        assert(v[i as int] == e@);
        let comps = split(e.rel.as_str(), '/');
        proof {
            crate::text::lemma_pieces_nonempty(e.rel@, '/');
            assert(texts(comps@).len() == comps@.len());
            assert(texts(comps@).skip(0) =~= texts(comps@));
        }
        match insert(&mut root, &comps, 0, e.id.as_str(), e.executable) {
            Ok(_) => {},
            Err(msg) => {
                proof {
                    lemma_grown_error(v, (i + 1) as nat, v.len());
                }
                return Err(msg);
            },
        }
        i = i + 1;
    }
    Ok(write_dir(objects, &root))
}

/// Snapshot the working tree as the next turn (or `turn_override`).
///
/// An unchanged tree still records a turn: turn numbers must stay aligned
/// with the agent conversation, and "the agent claimed to edit X but
/// nothing changed" is itself information.
pub fn take(
    store: &mut Store,
    work: &[LoadedFile],
    label: &str,
    agent: &str,
    turn_override: Option<u64>,
    time: i64,
) -> (r: Result<Snapshot, String>)
    requires
        turn_override is None ==> old(store)@.latest() != Some(u64::MAX),
    ensures
        ({
            let (after, outcome) = taken(
                old(store)@,
                loaded_views(work@),
                label@,
                agent@,
                turn_override,
                time,
            );
            &&& final(store)@ == after
            &&& match r {
                Ok(s) => outcome == Ok::<SnapshotView, Seq<char>>(s@),
                Err(e) => outcome == Err::<SnapshotView, Seq<char>>(e@),
            }
        }),
        final(store).table.extends(old(store).table),
{
    let entries = write_blobs(&mut store.table, work)?;
    let ghost with_blobs = store.table;
    let grown = write_tree(&mut store.table, &entries);
    let ghost with_tree = store.table;
    proof {
        lemma_extends(old(store).table, with_blobs, with_tree);
    }
    let tree = grown?;
    let latest = store.latest();
    let (parent, old_files): (Option<String>, Vec<FileEntry>) = match latest {
        Some(n) => {
            let parent = store.snapshot(n)?;
            let files = files_of(store, &parent)?;
            (Some(parent.id), files)
        },
        None => {
            let none: Vec<FileEntry> = Vec::new();
            assert(file_views(none@) =~= Seq::<FileEntryView>::empty());
            (None, none)
        },
    };
    let turn: u64 = next_turn(latest, turn_override)?;
    let stats: Stats = stats_between(&store.table, &old_files, &entries)?;
    let record = Snapshot {
        id: String::new(),
        tree,
        parent,
        turn,
        time,
        stats,
        agent: clean_text(agent),
        label: clean_text(label),
    };
    let payload = encode_snapshot(&record);
    let id = crate::object::write(&mut store.table, Kind::Snapshot, payload.as_slice());
    proof {
        lemma_extends(old(store).table, with_tree, store.table);
    }
    store.write_turn(turn, id.as_str())?;
    Ok(Snapshot { id, ..record })
}

} // verus!
