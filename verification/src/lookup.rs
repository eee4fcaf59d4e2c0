//! Looking a path up in a snapshot and listing the snapshot's files agree, on
//! every sound store; and the names in recorded trees come in order.

use vstd::prelude::*;

use crate::audit::{known, tree_complete};
use crate::listing::{lemma_path_from_root, path_from};
use crate::object::{
    encoded, fetched, object_id, parsed_entries, parsed_entry, parsed_tree, well_formed_id, Kind,
    TreeEntryView,
};
use crate::order::{law_sorted_by, lemma_text_order, text_before};
use crate::readback::{
    dir_held, extends, lemma_dir_reads_back, lemma_modes, lemma_tree_entries, tree_entry, writable_dir,
};
use crate::snapshot::{
    entry_named, file_below, flat_entries, flat_tree, grown_tree, path_below, snapshot_file,
    snapshot_files, FileEntryView,
};
use crate::soundness::{kinds_of, lemma_known_extends, objects_sound};
use crate::text::{
    components, joined_by, lemma_pieces_concat, lemma_pieces_nonempty, lemma_pieces_single,
    lines_of, nonempty, pieces,
};
use crate::tree::{
    insert_index, lemma_name_index, name_index, node_at, planted, tree_entries, tree_id, with_name,
    EntryView, NodeView,
};

verus! {

/// The entries of a tree that can be read.
pub open spec fn entries_of(objects: Map<Seq<char>, Seq<u8>>, tree: Seq<char>) -> Seq<
    TreeEntryView,
> {
    parsed_tree(fetched(objects, tree)->Ok_0.1)->Ok_0
}

/// The names are single path components, and no two are the same.
pub open spec fn names_plain(entries: Seq<TreeEntryView>) -> bool {
    &&& forall|i: int| 0 <= i < entries.len() ==> !(#[trigger] entries[i]).name.contains('/')
    &&& forall|i: int, j: int|
        0 <= i < entries.len() && 0 <= j < entries.len() && (#[trigger] entries[i]).name == (
        #[trigger] entries[j]).name ==> i == j
}

/// The names in a tree, and in all trees down to `depth` below it, are single
/// path components, and unique in each tree.
pub open spec fn well_named(
    objects: Map<Seq<char>, Seq<u8>>,
    tree: Seq<char>,
    depth: nat,
) -> bool
    decreases depth,
{
    depth > 0 ==> {
        &&& names_plain(entries_of(objects, tree))
        &&& forall|i: int|
            0 <= i < entries_of(objects, tree).len() ==> {
                let e = #[trigger] entries_of(objects, tree)[i];
                e.is_dir() ==> well_named(objects, e.id, (depth - 1) as nat)
            }
    }
}

/// The entry of the file that a path leads to, if any.
spec fn entry_in(
    objects: Map<Seq<char>, Seq<u8>>,
    entries: Seq<TreeEntryView>,
    path: Seq<Seq<char>>,
) -> Option<TreeEntryView>
    decreases path.len(),
{
    if path.len() == 0 {
        None
    } else {
        match entry_named(entries, path[0]) {
            None => None,
            Some(e) => if path.len() > 1 {
                if e.is_dir() {
                    entry_in(objects, entries_of(objects, e.id), path.drop_first())
                } else {
                    None
                }
            } else if e.is_dir() {
                None
            } else {
                Some(e)
            },
        }
    }
}

/// Names that a path can be made of.
spec fn plain_path(path: Seq<Seq<char>>) -> bool {
    forall|i: int|
        0 <= i < path.len() ==> (#[trigger] path[i]).len() > 0 && !path[i].contains('/')
}

proof fn lemma_entry_named(entries: Seq<TreeEntryView>, name: Seq<char>)
    ensures
        match entry_named(entries, name) {
            Some(e) => e.name == name && exists|i: int|
                0 <= i < entries.len() && #[trigger] entries[i] == e,
            None => forall|i: int| 0 <= i < entries.len() ==> (#[trigger] entries[i]).name != name,
        },
    decreases entries.len(),
{
    if entries.len() > 0 {
        let t = entries.drop_first();
        lemma_entry_named(t, name);
        if entries[0].name == name {
            assert(entries[0] == entry_named(entries, name)->0);
        } else {
            match entry_named(t, name) {
                Some(e) => {
                    let i = choose|i: int| 0 <= i < t.len() && #[trigger] t[i] == e;
                    assert(entries[i + 1] == e);
                },
                None => {
                    assert forall|i: int| 0 <= i < entries.len() implies (
                    #[trigger] entries[i]).name != name by {
                        if i > 0 {
                            assert(t[i - 1] == entries[i]);
                        }
                    }
                },
            }
        }
    }
}

proof fn lemma_named_at(entries: Seq<TreeEntryView>, i: int)
    requires
        names_plain(entries),
        0 <= i < entries.len(),
    ensures
        entry_named(entries, entries[i].name) == Some(entries[i]),
{
    lemma_entry_named(entries, entries[i].name);
    let e = entry_named(entries, entries[i].name)->0;
    let j = choose|j: int| 0 <= j < entries.len() && #[trigger] entries[j] == e;
    assert(entries[j].name == entries[i].name);
}

/// What parses as a tree has well-formed ids and names that are not empty.
proof fn lemma_parsed_entries(lines: Seq<Seq<char>>)
    requires
        parsed_entries(lines) is Ok,
    ensures
        forall|i: int|
            0 <= i < parsed_entries(lines)->Ok_0.len() ==> well_formed_id(
                (#[trigger] parsed_entries(lines)->Ok_0[i]).id,
            ) && parsed_entries(lines)->Ok_0[i].name.len() > 0,
    decreases lines.len(),
{
    if lines.len() > 0 {
        lemma_parsed_entries(lines.drop_last());
        assert(parsed_entry(lines.last()) is Some);
    }
}

pub(crate) proof fn lemma_entries_of(objects: Map<Seq<char>, Seq<u8>>, tree: Seq<char>)
    requires
        fetched(objects, tree) is Ok,
        parsed_tree(fetched(objects, tree)->Ok_0.1) is Ok,
    ensures
        forall|i: int|
            0 <= i < entries_of(objects, tree).len() ==> well_formed_id(
                (#[trigger] entries_of(objects, tree)[i]).id,
            ) && entries_of(objects, tree)[i].name.len() > 0,
{
    lemma_parsed_entries(lines_of(vstd::utf8::decode_utf8(fetched(objects, tree)->Ok_0.1)));
}

/// What one entry adds to a listing is in it.
proof fn lemma_entry_listed(
    objects: Map<Seq<char>, Seq<u8>>,
    entries: Seq<TreeEntryView>,
    n: nat,
    prefix: Seq<char>,
    depth: nat,
    i: int,
)
    requires
        0 <= i < n <= entries.len(),
        flat_entries(objects, entries, n, prefix, depth) is Ok,
    ensures
        ({
            let list = flat_entries(objects, entries, n, prefix, depth)->Ok_0;
            let e = entries[i];
            let rel = path_below(prefix, e.name);
            if e.is_dir() {
                &&& flat_tree(objects, e.id, rel, depth) is Ok
                &&& forall|x: FileEntryView| #[trigger]
                    flat_tree(objects, e.id, rel, depth)->Ok_0.contains(x) ==> list.contains(x)
            } else {
                list.contains(FileEntryView { rel, id: e.id, executable: e.is_exec() })
            }
        }),
    decreases n,
{
    let m = (n - 1) as nat;
    let before = flat_entries(objects, entries, m, prefix, depth)->Ok_0;
    let list = flat_entries(objects, entries, n, prefix, depth)->Ok_0;
    let last = entries[n - 1];
    let rel = path_below(prefix, last.name);
    assert forall|x: FileEntryView| #[trigger] before.contains(x) implies list.contains(x) by {
        let k = choose|k: int| 0 <= k < before.len() && before[k] == x;
        assert(list[k] == x);
    }
    if i < n - 1 {
        lemma_entry_listed(objects, entries, m, prefix, depth, i);
        let e = entries[i];
        if e.is_dir() {
            let below = flat_tree(objects, e.id, path_below(prefix, e.name), depth)->Ok_0;
            assert forall|x: FileEntryView| #[trigger] below.contains(x) implies list.contains(
                x,
            ) by {
                assert(before.contains(x));
            }
        }
    } else if last.is_dir() {
        let below = flat_tree(objects, last.id, rel, depth)->Ok_0;
        assert forall|x: FileEntryView| #[trigger] below.contains(x) implies list.contains(x) by {
            let k = choose|k: int| 0 <= k < below.len() && below[k] == x;
            assert(list[before.len() + k] == x);
        }
    } else {
        assert(list[list.len() - 1] == (FileEntryView {
            rel,
            id: last.id,
            executable: last.is_exec(),
        }));
    }
}

/// A path that leads to a file is listed.
proof fn lemma_found_is_listed(
    objects: Map<Seq<char>, Seq<u8>>,
    entries: Seq<TreeEntryView>,
    prefix: Seq<char>,
    depth: nat,
    path: Seq<Seq<char>>,
)
    requires
        flat_entries(objects, entries, entries.len(), prefix, depth) is Ok,
        entry_in(objects, entries, path) is Some,
    ensures
        ({
            let e = entry_in(objects, entries, path)->0;
            flat_entries(objects, entries, entries.len(), prefix, depth)->Ok_0.contains(
                FileEntryView {
                    rel: path_from(prefix, path),
                    id: e.id,
                    executable: e.is_exec(),
                },
            )
        }),
    decreases path.len(),
{
    lemma_entry_named(entries, path[0]);
    let e = entry_named(entries, path[0])->0;
    let i = choose|i: int| 0 <= i < entries.len() && #[trigger] entries[i] == e;
    lemma_entry_listed(objects, entries, entries.len(), prefix, depth, i);
    let rest = path.drop_first();
    let rel = path_below(prefix, e.name);
    if path.len() > 1 {
        lemma_found_is_listed(
            objects,
            entries_of(objects, e.id),
            rel,
            (depth - 1) as nat,
            rest,
        );
    } else {
        assert(path_from(rel, rest) == rel);
    }
}

/// A listed file is what its path leads to.
proof fn lemma_listed_is_found(
    objects: Map<Seq<char>, Seq<u8>>,
    entries: Seq<TreeEntryView>,
    n: nat,
    prefix: Seq<char>,
    depth: nat,
    k: int,
) -> (path: Seq<Seq<char>>)
    requires
        n <= entries.len(),
        flat_entries(objects, entries, n, prefix, depth) is Ok,
        0 <= k < flat_entries(objects, entries, n, prefix, depth)->Ok_0.len(),
        names_plain(entries),
        forall|i: int| 0 <= i < entries.len() ==> (#[trigger] entries[i]).name.len() > 0,
        forall|i: int|
            0 <= i < entries.len() && (#[trigger] entries[i]).is_dir() ==> well_named(
                objects,
                entries[i].id,
                depth,
            ),
    ensures
        path.len() > 0,
        plain_path(path),
        ({
            let x = flat_entries(objects, entries, n, prefix, depth)->Ok_0[k];
            &&& x.rel == path_from(prefix, path)
            &&& entry_in(objects, entries, path) matches Some(e) && e.id == x.id && e.is_exec()
                == x.executable
        }),
    decreases depth, n,
{
    let m = (n - 1) as nat;
    let before = flat_entries(objects, entries, m, prefix, depth)->Ok_0;
    let list = flat_entries(objects, entries, n, prefix, depth)->Ok_0;
    if k < before.len() {
        lemma_listed_is_found(objects, entries, m, prefix, depth, k)
    } else {
        let e = entries[n - 1];
        let rel = path_below(prefix, e.name);
        lemma_named_at(entries, n - 1);
        if e.is_dir() {
            let sub = entries_of(objects, e.id);
            let below = flat_tree(objects, e.id, rel, depth)->Ok_0;
            assert(list[k] == below[k - before.len()]);
            lemma_entries_of(objects, e.id);
            assert(well_named(objects, e.id, depth));
            let rest = lemma_listed_is_found(
                objects,
                sub,
                sub.len(),
                rel,
                (depth - 1) as nat,
                k - before.len(),
            );
            let path = seq![e.name] + rest;
            assert(path.drop_first() =~= rest);
            assert(path[0] == e.name);
            assert forall|i: int| 0 <= i < path.len() implies (#[trigger] path[i]).len() > 0
                && !path[i].contains('/') by {
                if i > 0 {
                    assert(path[i] == rest[i - 1]);
                }
            }
            path
        } else {
            let path = seq![e.name];
            assert(path.drop_first() =~= Seq::<Seq<char>>::empty());
            assert(path_from(rel, path.drop_first()) == rel);
            path
        }
    }
}

/// A lookup below a tree that can be listed finds the entry that the path leads
/// to.
proof fn lemma_lookup(
    objects: Map<Seq<char>, Seq<u8>>,
    tree: Seq<char>,
    prefix: Seq<char>,
    depth: nat,
    path: Seq<Seq<char>>,
    rel: Seq<char>,
)
    requires
        flat_tree(objects, tree, prefix, depth) is Ok,
    ensures
        match entry_in(objects, entries_of(objects, tree), path) {
            None => file_below(objects, tree, path, rel) == Ok::<
                Option<(Seq<u8>, bool)>,
                Seq<char>,
            >(None),
            Some(e) => fetched(objects, e.id) matches Ok((Kind::Blob, bytes)) ==> file_below(
                objects,
                tree,
                path,
                rel,
            ) == Ok::<Option<(Seq<u8>, bool)>, Seq<char>>(Some((bytes, e.is_exec()))),
        },
    decreases path.len(),
{
    let entries = entries_of(objects, tree);
    if path.len() > 1 {
        lemma_entry_named(entries, path[0]);
        if let Some(e) = entry_named(entries, path[0]) {
            let i = choose|i: int| 0 <= i < entries.len() && #[trigger] entries[i] == e;
            let d = (depth - 1) as nat;
            lemma_entry_listed(objects, entries, entries.len(), prefix, d, i);
            if e.is_dir() {
                lemma_lookup(
                    objects,
                    e.id,
                    path_below(prefix, e.name),
                    d,
                    path.drop_first(),
                    rel,
                );
            }
        }
    }
}

/// A path below a complete tree leads to a blob that can be read.
proof fn lemma_found_is_blob(
    objects: Map<Seq<char>, Seq<u8>>,
    tree: Seq<char>,
    depth: nat,
    path: Seq<Seq<char>>,
)
    requires
        objects_sound(objects),
        tree_complete(objects, kinds_of(objects), tree, depth),
        entry_in(objects, entries_of(objects, tree), path) is Some,
    ensures
        fetched(objects, entry_in(objects, entries_of(objects, tree), path)->0.id) matches Ok(
            (Kind::Blob, _),
        ),
        objects.contains_key(entry_in(objects, entries_of(objects, tree), path)->0.id),
    decreases path.len(),
{
    let entries = entries_of(objects, tree);
    lemma_entry_named(entries, path[0]);
    lemma_entries_of(objects, tree);
    let e = entry_named(entries, path[0])->0;
    let i = choose|i: int| 0 <= i < entries.len() && #[trigger] entries[i] == e;
    assert(parsed_tree(fetched(objects, tree)->Ok_0.1)->Ok_0[i] == e);
    if path.len() > 1 {
        lemma_found_is_blob(objects, e.id, (depth - 1) as nat, path.drop_first());
    } else {
        assert(known(kinds_of(objects), e.id, Kind::Blob));
        assert(objects.contains_key(e.id));
    }
}

proof fn lemma_pieces_free(s: Seq<char>, c: char)
    ensures
        forall|i: int| 0 <= i < pieces(s, c).len() ==> !(#[trigger] pieces(s, c)[i]).contains(c),
    decreases s.len(),
{
    if s.len() > 0 {
        let before = pieces(s.drop_last(), c);
        let now = pieces(s, c);
        lemma_pieces_free(s.drop_last(), c);
        lemma_pieces_nonempty(s.drop_last(), c);
        assert forall|i: int| 0 <= i < now.len() implies !(#[trigger] now[i]).contains(c) by {
            if s.last() == c {
                if i < before.len() {
                    assert(now[i] == before[i]);
                }
            } else if i < before.len() - 1 {
                assert(now[i] == before[i]);
            } else {
                let last = before[before.len() - 1];
                assert(!last.contains(c));
                assert forall|k: int| 0 <= k < now[i].len() implies now[i][k] != c by {
                    if k < last.len() {
                        assert(last[k] == now[i][k]);
                        assert(last.contains(last[k]));
                    }
                }
            }
        }
    }
}

proof fn lemma_nonempty_plain(parts: Seq<Seq<char>>)
    requires
        forall|i: int| 0 <= i < parts.len() ==> !(#[trigger] parts[i]).contains('/'),
    ensures
        plain_path(nonempty(parts)),
    decreases parts.len(),
{
    if parts.len() > 0 {
        let head = parts.drop_last();
        assert forall|i: int| 0 <= i < head.len() implies !(#[trigger] head[i]).contains('/') by {
            assert(head[i] == parts[i]);
        }
        lemma_nonempty_plain(head);
        assert(!parts[parts.len() - 1].contains('/'));
    }
}

/// A path falls into the names that it was joined from.
proof fn lemma_joined_names(path: Seq<Seq<char>>)
    requires
        path.len() > 0,
        plain_path(path),
    ensures
        pieces(joined_by(path, '/'), '/') == path,
    decreases path.len(),
{
    assert(!path[path.len() - 1].contains('/'));
    lemma_pieces_single(path.last(), '/');
    if path.len() == 1 {
        assert(path =~= seq![path.last()]);
    } else {
        let head = path.drop_last();
        assert forall|i: int| 0 <= i < head.len() implies (#[trigger] head[i]).len() > 0
            && !head[i].contains('/') by {
            assert(head[i] == path[i]);
        }
        lemma_joined_names(head);
        lemma_pieces_concat(joined_by(head, '/'), path.last(), '/');
        assert(head + seq![path.last()] =~= path);
    }
}

/// On a sound store, looking a path up gives what the listing says. Where the
/// listing has a file at the path, with its empty components dropped, the
/// lookup gives the bytes behind the file's id and its exec bit. Everywhere
/// else it gives nothing: at directories, below files, at missing paths and at
/// the empty path.
pub proof fn law_lookup_agrees_with_listing(
    objects: Map<Seq<char>, Seq<u8>>,
    tree: Seq<char>,
    rel: Seq<char>,
)
    requires
        objects_sound(objects),
        tree_complete(objects, kinds_of(objects), tree, objects.len()),
        well_named(objects, tree, objects.len()),
        snapshot_files(objects, tree) is Ok,
    ensures
        ({
            let files = snapshot_files(objects, tree)->Ok_0;
            let clean = joined_by(components(rel), '/');
            let found = snapshot_file(objects, tree, rel);
            &&& forall|k: int|
                0 <= k < files.len() && (#[trigger] files[k]).rel == clean ==> {
                    let bytes = fetched(objects, files[k].id)->Ok_0.1;
                    &&& fetched(objects, files[k].id) == Ok::<(Kind, Seq<u8>), Seq<char>>(
                        (Kind::Blob, bytes),
                    )
                    &&& found == Ok::<Option<(Seq<u8>, bool)>, Seq<char>>(
                        Some((bytes, files[k].executable)),
                    )
                    &&& objects[files[k].id] == encoded(Kind::Blob, bytes) ==> object_id(
                        Kind::Blob,
                        bytes,
                    ) == files[k].id
                }
            &&& (forall|k: int| 0 <= k < files.len() ==> (#[trigger] files[k]).rel != clean)
                ==> found == Ok::<Option<(Seq<u8>, bool)>, Seq<char>>(None)
        }),
{
    let files = snapshot_files(objects, tree)->Ok_0;
    let comps = components(rel);
    let clean = joined_by(comps, '/');
    let found = snapshot_file(objects, tree, rel);
    let none = Seq::<char>::empty();
    let depth = objects.len();
    let list = flat_tree(objects, tree, none, depth)->Ok_0;
    let entries = entries_of(objects, tree);
    lemma_pieces_free(rel, '/');
    lemma_nonempty_plain(pieces(rel, '/'));
    lemma_lookup(objects, tree, none, depth, comps, rel);
    lemma_entries_of(objects, tree);
    law_sorted_by(list, |e: FileEntryView| e.rel);
    if comps.len() > 0 {
        lemma_joined_names(comps);
        lemma_path_from_root(comps);
    }
    assert forall|k: int| 0 <= k < files.len() && (#[trigger] files[k]).rel == clean implies {
        let bytes = fetched(objects, files[k].id)->Ok_0.1;
        &&& fetched(objects, files[k].id) == Ok::<(Kind, Seq<u8>), Seq<char>>((Kind::Blob, bytes))
        &&& found == Ok::<Option<(Seq<u8>, bool)>, Seq<char>>(Some((bytes, files[k].executable)))
        &&& objects[files[k].id] == encoded(Kind::Blob, bytes) ==> object_id(Kind::Blob, bytes)
            == files[k].id
    } by {
        assert(files.contains(files[k]));
        assert(list.contains(files[k]));
        let j = choose|j: int| 0 <= j < list.len() && list[j] == files[k];
        let path = lemma_listed_is_found(
            objects,
            entries,
            entries.len(),
            none,
            (depth - 1) as nat,
            j,
        );
        lemma_path_from_root(path);
        lemma_joined_names(path);
        assert(clean.len() > 0);
        assert(comps.len() > 0);
        assert(path == comps);
        lemma_found_is_blob(objects, tree, depth, comps);
    }
    if forall|k: int| 0 <= k < files.len() ==> (#[trigger] files[k]).rel != clean {
        if entry_in(objects, entries, comps) is Some {
            lemma_found_is_listed(objects, entries, none, (depth - 1) as nat, comps);
            let e = entry_in(objects, entries, comps)->0;
            let x = FileEntryView { rel: clean, id: e.id, executable: e.is_exec() };
            assert(list.contains(x));
            assert(files.contains(x));
            let k = choose|k: int| 0 <= k < files.len() && files[k] == x;
            assert(files[k].rel == clean);
        }
    }
}

/// The names in a directory come in order, each once and without a slash, and
/// so do those in all directories below it.
pub open spec fn ordered_dir(d: Seq<EntryView>) -> bool
    decreases d,
{
    &&& forall|i: int, j: int|
        0 <= i < j < d.len() ==> text_before((#[trigger] d[i]).name, (#[trigger] d[j]).name)
    &&& forall|i: int|
        0 <= i < d.len() ==> !(#[trigger] d[i]).name.contains('/') && match d[i].node {
            NodeView::File { .. } => true,
            NodeView::Dir(sub) => ordered_dir(sub),
        }
}

proof fn lemma_insert_place(d: Seq<EntryView>, name: Seq<char>)
    ensures
        0 <= insert_index(d, name) <= d.len(),
        forall|i: int|
            0 <= i < insert_index(d, name) ==> text_before((#[trigger] d[i]).name, name),
        insert_index(d, name) < d.len() ==> !text_before(d[insert_index(d, name)].name, name),
    decreases d.len(),
{
    if d.len() > 0 && text_before(d[0].name, name) {
        let t = d.drop_first();
        lemma_insert_place(t, name);
        assert forall|i: int| 0 <= i < insert_index(d, name) implies text_before(
            (#[trigger] d[i]).name,
            name,
        ) by {
            if i > 0 {
                assert(t[i - 1] == d[i]);
            }
        }
    }
}

proof fn lemma_with_name_ordered(d: Seq<EntryView>, name: Seq<char>, node: NodeView)
    requires
        ordered_dir(d),
        !name.contains('/'),
        node matches NodeView::Dir(sub) ==> ordered_dir(sub),
    ensures
        ordered_dir(with_name(d, name, node)),
{
    let out = with_name(d, name, node);
    let k = insert_index(d, name);
    lemma_name_index(d, name);
    lemma_insert_place(d, name);
    if name_index(d, name) < d.len() {
        assert forall|i: int, j: int| 0 <= i < j < out.len() implies text_before(
            (#[trigger] out[i]).name,
            (#[trigger] out[j]).name,
        ) by {
            assert(text_before(d[i].name, d[j].name));
        }
    } else {
        assert forall|i: int| k <= i < d.len() implies text_before(name, (#[trigger] d[i]).name) by {
            lemma_text_order(name, d[k].name, d[i].name);
            assert(d[k].name != name);
            if i > k {
                assert(text_before(d[k].name, d[i].name));
            }
        }
        assert forall|i: int, j: int| 0 <= i < j < out.len() implies text_before(
            (#[trigger] out[i]).name,
            (#[trigger] out[j]).name,
        ) by {
            let x = if i < k {
                i
            } else {
                i - 1
            };
            let y = if j < k {
                j
            } else {
                j - 1
            };
            if i != k {
                assert(out[i] == d[x]);
            }
            if j != k {
                assert(out[j] == d[y]);
            }
        }
    }
    assert forall|i: int| 0 <= i < out.len() implies !(#[trigger] out[i]).name.contains('/')
        && match out[i].node {
        NodeView::File { .. } => true,
        NodeView::Dir(sub) => ordered_dir(sub),
    } by {
        if name_index(d, name) < d.len() {
            if i != name_index(d, name) {
                assert(out[i] == d[i]);
            }
        } else if i < k {
            assert(out[i] == d[i]);
        } else if i > k {
            assert(out[i] == d[i - 1]);
        }
    }
}

proof fn lemma_planted_ordered(
    d: Seq<EntryView>,
    path: Seq<Seq<char>>,
    id: Seq<char>,
    executable: bool,
)
    requires
        path.len() > 0,
        ordered_dir(d),
        forall|i: int| 0 <= i < path.len() ==> !(#[trigger] path[i]).contains('/'),
        planted(d, path, id, executable) is Ok,
    ensures
        ordered_dir(planted(d, path, id, executable)->Ok_0),
    decreases path.len(),
{
    let name = path[0];
    if path.len() == 1 {
        lemma_with_name_ordered(d, name, NodeView::File { id, executable });
    } else {
        let rest = path.drop_first();
        assert forall|i: int| 0 <= i < rest.len() implies !(#[trigger] rest[i]).contains('/') by {
            assert(rest[i] == path[i + 1]);
        }
        let inner = match node_at(d, name) {
            Some(NodeView::Dir(sub)) => sub,
            _ => Seq::empty(),
        };
        lemma_name_index(d, name);
        assert(ordered_dir(inner));
        lemma_planted_ordered(inner, rest, id, executable);
        let sub = planted(inner, rest, id, executable)->Ok_0;
        lemma_with_name_ordered(d, name, NodeView::Dir(sub));
    }
}

/// The tree that grows from any list of files has its names in order, each
/// once, in every directory.
pub proof fn law_grown_tree_is_ordered(entries: Seq<FileEntryView>, n: nat)
    requires
        n <= entries.len(),
        grown_tree(entries, n) is Ok,
    ensures
        ordered_dir(grown_tree(entries, n)->Ok_0),
    decreases n,
{
    if n > 0 {
        law_grown_tree_is_ordered(entries, (n - 1) as nat);
        let e = entries[n - 1];
        lemma_pieces_nonempty(e.rel, '/');
        lemma_pieces_free(e.rel, '/');
        lemma_planted_ordered(
            grown_tree(entries, (n - 1) as nat)->Ok_0,
            pieces(e.rel, '/'),
            e.id,
            e.executable,
        );
    }
}

/// The trees of a held directory with ordered names are well named: what was
/// recorded can be looked up as it is listed.
pub proof fn law_recorded_tree_is_well_named(
    objects: Map<Seq<char>, Seq<u8>>,
    d: Seq<EntryView>,
    depth: nat,
)
    requires
        dir_held(objects, d),
        writable_dir(d),
        ordered_dir(d),
    ensures
        well_named(objects, tree_id(d), depth),
    decreases depth,
{
    if depth > 0 {
        lemma_dir_reads_back(objects, d);
        lemma_tree_entries(d, d.len());
        lemma_modes();
        let entries = entries_of(objects, tree_id(d));
        assert(entries == tree_entries(d, d.len()));
        assert forall|i: int| 0 <= i < entries.len() implies !(
        #[trigger] entries[i]).name.contains('/') by {
            assert(entries[i] == tree_entry(d[i]));
        }
        assert forall|i: int, j: int|
            0 <= i < entries.len() && 0 <= j < entries.len() && (#[trigger] entries[i]).name == (
            #[trigger] entries[j]).name implies i == j by {
            assert(entries[i] == tree_entry(d[i]) && entries[j] == tree_entry(d[j]));
            lemma_text_order(d[i].name, d[j].name, d[i].name);
            if i < j {
                assert(text_before(d[i].name, d[j].name));
            } else if j < i {
                assert(text_before(d[j].name, d[i].name));
            }
        }
        assert forall|i: int| 0 <= i < entries.len() implies {
            let e = #[trigger] entries[i];
            e.is_dir() ==> well_named(objects, e.id, (depth - 1) as nat)
        } by {
            assert(entries[i] == tree_entry(d[i]));
            if let NodeView::Dir(sub) = d[i].node {
                law_recorded_tree_is_well_named(objects, sub, (depth - 1) as nat);
            }
        }
    }
}

/// A well-named tree stays so as objects are added.
pub proof fn law_well_named_tree_stays_so(
    old: Map<Seq<char>, Seq<u8>>,
    new: Map<Seq<char>, Seq<u8>>,
    tree: Seq<char>,
    depth: nat,
    deeper: nat,
)
    requires
        extends(old, new),
        tree_complete(old, kinds_of(old), tree, depth),
        well_named(old, tree, depth),
        depth <= deeper,
    ensures
        well_named(new, tree, deeper),
    decreases depth,
{
    lemma_known_extends(old, new, tree, Kind::Tree);
    let entries = entries_of(old, tree);
    assert(entries_of(new, tree) == entries);
    assert forall|i: int| 0 <= i < entries.len() implies {
        let e = #[trigger] entries[i];
        e.is_dir() ==> well_named(new, e.id, (deeper - 1) as nat)
    } by {
        let e = entries[i];
        if e.is_dir() {
            assert(tree_complete(old, kinds_of(old), e.id, (depth - 1) as nat));
            law_well_named_tree_stays_so(old, new, e.id, (depth - 1) as nat, (deeper - 1) as nat);
        }
    }
}

} // verus!
