//! What reading gives back of what was written: directories that were stored
//! as tree objects, and files that were recorded by a snapshot.

use vstd::prelude::*;
use vstd::utf8::encode_utf8;

use crate::object::{
    cleaned, encoded, fetched, is_hex, law_cleaned_text_is_one_line, law_encoded_object_reads_back,
    law_encoded_snapshot_reads_back, law_encoded_tree_reads_back, law_object_ids_are_well_formed,
    no_changes, object_id, parsed_tree, snapshot_text, stored, well_formed_id, writable_entry,
    writable_snapshot, writable_text, Kind, SnapshotView, Stats, TreeEntryView, MODE_DIR, MODE_EXEC, MODE_FILE,
};
use crate::sha1::sha1_hex;
use crate::snapshot::{
    blobs_stored, entry_named, file_below, file_stats, grown_tree, lemma_last_index, loaded_entry,
    recorded_state, snapshot_file, stats_of_new, stats_of_old, taken, FileEntryView, LoadedView,
};
use crate::store::{law_recorded_turn_is_latest, StoreView};
use crate::text::{components, nonempty, pieces, trimmed, trimmed_end, trimmed_start, white_space};
use crate::tree::{
    file_mode, insert_index, lemma_name_index, looked_up, name_index, node_at, planted,
    subtrees_stored, tree_entries, tree_id, tree_payload, tree_stored, with_name, EntryView,
    NodeView,
};

verus! {

/// The object is in the table under its id. Another content with the same
/// digest is all that could keep a written object from being there.
pub open spec fn held(objects: Map<Seq<char>, Seq<u8>>, kind: Kind, payload: Seq<u8>) -> bool {
    &&& objects.contains_key(object_id(kind, payload))
    &&& objects[object_id(kind, payload)] == encoded(kind, payload)
    &&& payload.len() <= usize::MAX
}

/// A held object is what its id leads to.
proof fn lemma_held(objects: Map<Seq<char>, Seq<u8>>, kind: Kind, payload: Seq<u8>)
    requires
        held(objects, kind, payload),
    ensures
        fetched(objects, object_id(kind, payload)) == Ok::<(Kind, Seq<u8>), Seq<char>>(
            (kind, payload),
        ),
{
    law_object_ids_are_well_formed(kind, payload);
    law_encoded_object_reads_back(object_id(kind, payload), kind, payload);
}

/// The trees of a directory and of everything below it are held.
pub open spec fn dir_held(objects: Map<Seq<char>, Seq<u8>>, d: Seq<EntryView>) -> bool
    decreases d,
{
    &&& held(objects, Kind::Tree, tree_payload(d))
    &&& forall|i: int|
        0 <= i < d.len() ==> match (#[trigger] d[i]).node {
            NodeView::File { .. } => true,
            NodeView::Dir(sub) => dir_held(objects, sub),
        }
}

/// A name that survives being written in a tree.
pub open spec fn writable_name(name: Seq<char>) -> bool {
    name.len() > 0 && !name.contains('\n')
}

/// Every name in a directory and below it survives being written, and every
/// file has a well-formed id.
pub open spec fn writable_dir(d: Seq<EntryView>) -> bool
    decreases d,
{
    forall|i: int|
        0 <= i < d.len() ==> writable_name((#[trigger] d[i]).name) && match d[i].node {
            NodeView::File { id, .. } => well_formed_id(id),
            NodeView::Dir(sub) => writable_dir(sub),
        }
}

pub proof fn lemma_modes()
    ensures
        MODE_FILE@ != MODE_DIR@,
        MODE_EXEC@ != MODE_DIR@,
        MODE_FILE@ != MODE_EXEC@,
        !MODE_FILE@.contains(' '),
        !MODE_EXEC@.contains(' '),
        !MODE_DIR@.contains(' '),
        !MODE_FILE@.contains('\n'),
        !MODE_EXEC@.contains('\n'),
        !MODE_DIR@.contains('\n'),
{
    reveal_strlit("100644");
    reveal_strlit("100755");
    reveal_strlit("040000");
    assert(MODE_FILE@[0] != MODE_DIR@[0]);
    assert(MODE_EXEC@[0] != MODE_DIR@[0]);
    assert(MODE_FILE@[3] != MODE_EXEC@[3]);
}

/// The tree entry of a directory entry.
pub open spec fn tree_entry(e: EntryView) -> TreeEntryView {
    match e.node {
        NodeView::File { id, executable } => TreeEntryView {
            mode: file_mode(executable),
            id,
            name: e.name,
        },
        NodeView::Dir(sub) => TreeEntryView { mode: MODE_DIR@, id: tree_id(sub), name: e.name },
    }
}

pub proof fn lemma_tree_entries(d: Seq<EntryView>, n: nat)
    requires
        n <= d.len(),
    ensures
        tree_entries(d, n).len() == n,
        forall|i: int| 0 <= i < n ==> #[trigger] tree_entries(d, n)[i] == tree_entry(d[i]),
    decreases n,
{
    if n > 0 {
        lemma_tree_entries(d, (n - 1) as nat);
    }
}

proof fn lemma_entry_named(d: Seq<EntryView>, entries: Seq<TreeEntryView>, name: Seq<char>)
    requires
        entries.len() == d.len(),
        forall|i: int| 0 <= i < d.len() ==> #[trigger] entries[i] == tree_entry(d[i]),
    ensures
        entry_named(entries, name) == (if name_index(d, name) < d.len() {
            Some(tree_entry(d[name_index(d, name)]))
        } else {
            None
        }),
    decreases d.len(),
{
    if d.len() > 0 {
        assert(entries[0] == tree_entry(d[0]));
        if d[0].name != name {
            let dd = d.drop_first();
            let ee = entries.drop_first();
            assert forall|i: int| 0 <= i < dd.len() implies #[trigger] ee[i] == tree_entry(
                dd[i],
            ) by {
                assert(entries[i + 1] == tree_entry(d[i + 1]));
            }
            lemma_entry_named(dd, ee, name);
            lemma_name_index(dd, name);
        }
    }
}

/// A held directory reads back as its entries.
pub proof fn lemma_dir_reads_back(objects: Map<Seq<char>, Seq<u8>>, d: Seq<EntryView>)
    requires
        dir_held(objects, d),
        writable_dir(d),
    ensures
        fetched(objects, tree_id(d)) == Ok::<(Kind, Seq<u8>), Seq<char>>(
            (Kind::Tree, tree_payload(d)),
        ),
        parsed_tree(tree_payload(d)) == Ok::<Seq<TreeEntryView>, Seq<char>>(
            tree_entries(d, d.len()),
        ),
{
    lemma_held(objects, Kind::Tree, tree_payload(d));
    lemma_tree_entries(d, d.len());
    lemma_modes();
    let entries = tree_entries(d, d.len());
    assert forall|i: int| 0 <= i < entries.len() implies writable_entry(#[trigger] entries[i]) by {
        assert(entries[i] == tree_entry(d[i]));
        assert(writable_name(d[i].name));
        match d[i].node {
            NodeView::File { id, executable } => {},
            NodeView::Dir(sub) => {
                law_object_ids_are_well_formed(Kind::Tree, tree_payload(sub));
            },
        }
    }
    law_encoded_tree_reads_back(entries);
}

/// A path below a stored directory leads to the file that the directory has
/// there, and nowhere where it has none.
pub proof fn law_stored_directory_reads_back(
    objects: Map<Seq<char>, Seq<u8>>,
    d: Seq<EntryView>,
    path: Seq<Seq<char>>,
    rel: Seq<char>,
)
    requires
        dir_held(objects, d),
        writable_dir(d),
    ensures
        match looked_up(d, path) {
            None => file_below(objects, tree_id(d), path, rel) == Ok::<
                Option<(Seq<u8>, bool)>,
                Seq<char>,
            >(None),
            Some((id, executable)) => fetched(objects, id) matches Ok((Kind::Blob, bytes))
                ==> file_below(objects, tree_id(d), path, rel) == Ok::<
                Option<(Seq<u8>, bool)>,
                Seq<char>,
            >(Some((bytes, executable))),
        },
    decreases path.len(),
{
    if path.len() > 0 {
        lemma_dir_reads_back(objects, d);
        lemma_tree_entries(d, d.len());
        let entries = tree_entries(d, d.len());
        lemma_entry_named(d, entries, path[0]);
        lemma_name_index(d, path[0]);
        lemma_modes();
        let i = name_index(d, path[0]);
        if i < d.len() {
            let e = d[i];
            match e.node {
                NodeView::File { id, executable } => {},
                NodeView::Dir(sub) => {
                    if path.len() > 1 {
                        law_stored_directory_reads_back(objects, sub, path.drop_first(), rel);
                    }
                },
            }
        }
    }
}

proof fn lemma_with_name(d: Seq<EntryView>, name: Seq<char>, node: NodeView, other: Seq<char>)
    ensures
        node_at(with_name(d, name, node), other) == (if other == name {
            Some(node)
        } else {
            node_at(d, other)
        }),
{
    let e = EntryView { name, node };
    let i = name_index(d, name);
    lemma_name_index(d, name);
    lemma_name_index(d, other);
    if i < d.len() {
        let out = d.update(i, e);
        if other == name {
            lemma_index_is(out, name, i);
        } else {
            lemma_index_is(out, other, name_index(d, other));
        }
    } else {
        let k = insert_index(d, name);
        lemma_insert_index(d, name);
        let out = d.insert(k, e);
        let j = name_index(d, other);
        if other == name {
            assert forall|t: int| 0 <= t < k implies (#[trigger] out[t]).name != name by {
                assert(out[t] == d[t]);
            }
            lemma_index_is(out, name, k);
        } else if j < k {
            assert forall|t: int| 0 <= t < j implies (#[trigger] out[t]).name != other by {
                assert(out[t] == d[t]);
            }
            lemma_index_is(out, other, j);
        } else {
            assert forall|t: int| 0 <= t < j + 1 implies (#[trigger] out[t]).name != other by {
                if t < k {
                    assert(out[t] == d[t]);
                } else if t > k {
                    assert(out[t] == d[t - 1]);
                }
            }
            if j < d.len() {
                assert(out[j + 1] == d[j]);
            }
            lemma_index_is(out, other, j + 1);
        }
    }
}

pub proof fn lemma_insert_index(d: Seq<EntryView>, name: Seq<char>)
    ensures
        0 <= insert_index(d, name) <= d.len(),
    decreases d.len(),
{
    if d.len() > 0 {
        lemma_insert_index(d.drop_first(), name);
    }
}

proof fn lemma_index_is(d: Seq<EntryView>, name: Seq<char>, i: int)
    requires
        0 <= i <= d.len(),
        forall|j: int| 0 <= j < i ==> (#[trigger] d[j]).name != name,
        i < d.len() ==> d[i].name == name,
    ensures
        name_index(d, name) == i,
    decreases d.len(),
{
    if i > 0 {
        let t = d.drop_first();
        assert forall|j: int| 0 <= j < i - 1 implies (#[trigger] t[j]).name != name by {
            assert(d[j + 1].name != name);
        }
        assert(d[0].name != name);
        lemma_index_is(t, name, i - 1);
    }
}

/// Putting a file at a path changes what that path leads to, and takes away
/// what lay below it; every other path leads where it did.
pub proof fn law_planting_changes_one_path(
    d: Seq<EntryView>,
    path: Seq<Seq<char>>,
    id: Seq<char>,
    executable: bool,
    q: Seq<Seq<char>>,
)
    requires
        path.len() > 0,
        planted(d, path, id, executable) is Ok,
    ensures
        looked_up(planted(d, path, id, executable)->Ok_0, q) == (if q == path {
            Some((id, executable))
        } else if path.is_prefix_of(q) {
            None
        } else {
            looked_up(d, q)
        }),
    decreases path.len(),
{
    let d2 = planted(d, path, id, executable)->Ok_0;
    if q.len() > 0 {
        let name = path[0];
        let rest = path.drop_first();
        let qr = q.drop_first();
        if path.len() == 1 {
            lemma_with_name(d, name, NodeView::File { id, executable }, q[0]);
            if q[0] == name {
                assert(path =~= q.take(1));
                assert(path.is_prefix_of(q));
                if q.len() == 1 {
                    assert(q =~= path);
                }
            } else {
                assert(q != path);
                if path.is_prefix_of(q) {
                    assert(q.take(1)[0] == path[0]);
                }
            }
        } else {
            assert(path =~= seq![name] + rest);
            assert(q =~= seq![q[0]] + qr);
            let inner = match node_at(d, name) {
                Some(NodeView::Dir(sub)) => sub,
                _ => Seq::empty(),
            };
            let sub = planted(inner, rest, id, executable)->Ok_0;
            lemma_with_name(d, name, NodeView::Dir(sub), q[0]);
            law_planting_changes_one_path(inner, rest, id, executable, qr);
            if q[0] == name {
                if q == path {
                    assert(qr =~= rest);
                }
                if qr == rest {
                    assert(q =~= path);
                }
                if path.is_prefix_of(q) {
                    assert(path == q.subrange(0, path.len() as int));
                    assert(rest =~= qr.subrange(0, rest.len() as int)) by {
                        assert forall|i: int| 0 <= i < rest.len() implies rest[i] == qr[i] by {
                            assert(path[i + 1] == q[i + 1]);
                        }
                    }
                }
                if rest.is_prefix_of(qr) {
                    assert(rest == qr.subrange(0, rest.len() as int));
                    assert forall|i: int| 0 <= i < path.len() implies path[i] == q[i] by {
                        if i > 0 {
                            assert(rest[i - 1] == qr.subrange(0, rest.len() as int)[i - 1]);
                        }
                    }
                    assert(path =~= q.subrange(0, path.len() as int));
                }
                if node_at(d, name) is None {
                    assert(looked_up(inner, qr) is None) by {
                        if qr.len() > 0 {
                            lemma_name_index(inner, qr[0]);
                        }
                    }
                }
            } else {
                if path.is_prefix_of(q) {
                    assert(q.subrange(0, path.len() as int)[0] == q[0]);
                }
            }
        }
    } else {
        assert(q.len() == 0);
        if path.is_prefix_of(q) {
            assert(path.len() <= q.len());
        }
    }
}

/// Where planting fails, a file stands on the way.
proof fn lemma_conflict(d: Seq<EntryView>, path: Seq<Seq<char>>, id: Seq<char>, executable: bool)
    requires
        path.len() > 0,
        planted(d, path, id, executable) is Err,
    ensures
        exists|n: int| 0 < n < path.len() && looked_up(d, #[trigger] path.take(n)) is Some,
    decreases path.len(),
{
    let name = path[0];
    let rest = path.drop_first();
    match node_at(d, name) {
        None => {
            lemma_conflict(Seq::empty(), rest, id, executable);
            let n = choose|n: int|
                0 < n < rest.len() && looked_up(
                    Seq::<EntryView>::empty(),
                    #[trigger] rest.take(n),
                ) is Some;
            lemma_name_index(Seq::<EntryView>::empty(), rest.take(n)[0]);
            assert(false);
        },
        Some(NodeView::Dir(inner)) => {
            lemma_conflict(inner, rest, id, executable);
            let n = choose|n: int|
                0 < n < rest.len() && looked_up(inner, #[trigger] rest.take(n)) is Some;
            let p = path.take(n + 1);
            assert(p.drop_first() =~= rest.take(n));
            assert(p[0] == name);
            assert(looked_up(d, path.take(n + 1)) is Some);
        },
        Some(NodeView::File { .. }) => {
            let p = path.take(1);
            assert(p[0] == name);
            assert(looked_up(d, path.take(1)) is Some);
        },
    }
}

/// No path in the list is another one, or leads through another one.
pub open spec fn separate_paths(entries: Seq<FileEntryView>) -> bool {
    forall|i: int, j: int|
        0 <= i < entries.len() && 0 <= j < entries.len() && i != j ==> !pieces(
            (#[trigger] entries[i]).rel,
            '/',
        ).is_prefix_of(pieces((#[trigger] entries[j]).rel, '/'))
}

/// The tree of separate paths has each file at its path, and no other.
pub proof fn law_grown_tree_has_its_files(entries: Seq<FileEntryView>, n: nat)
    requires
        separate_paths(entries),
        n <= entries.len(),
    ensures
        grown_tree(entries, n) is Ok,
        forall|i: int|
            0 <= i < n ==> looked_up(
                grown_tree(entries, n)->Ok_0,
                pieces((#[trigger] entries[i]).rel, '/'),
            ) == Some((entries[i].id, entries[i].executable)),
        forall|q: Seq<Seq<char>>| #[trigger]
            looked_up(grown_tree(entries, n)->Ok_0, q) is Some ==> exists|i: int|
                0 <= i < n && pieces((#[trigger] entries[i]).rel, '/') == q,
    decreases n,
{
    if n == 0 {
        assert forall|q: Seq<Seq<char>>| #[trigger]
            looked_up(grown_tree(entries, n)->Ok_0, q) is Some implies exists|i: int|
            0 <= i < n && pieces((#[trigger] entries[i]).rel, '/') == q by {
            if q.len() > 0 {
                lemma_name_index(Seq::<EntryView>::empty(), q[0]);
            }
        }
    } else {
        let m = (n - 1) as nat;
        law_grown_tree_has_its_files(entries, m);
        let d = grown_tree(entries, m)->Ok_0;
        let e = entries[n - 1];
        let path = pieces(e.rel, '/');
        crate::text::lemma_pieces_nonempty(e.rel, '/');
        if planted(d, path, e.id, e.executable) is Err {
            lemma_conflict(d, path, e.id, e.executable);
            let k = choose|k: int|
                0 < k < path.len() && looked_up(d, #[trigger] path.take(k)) is Some;
            let i = choose|i: int|
                0 <= i < m && pieces((#[trigger] entries[i]).rel, '/') == path.take(k);
            assert(pieces(entries[i].rel, '/').is_prefix_of(path)) by {
                assert(path.take(k) =~= path.subrange(0, path.take(k).len() as int));
            }
            assert(false);
        }
        let d2 = grown_tree(entries, n)->Ok_0;
        assert forall|i: int| 0 <= i < n implies looked_up(
            d2,
            pieces((#[trigger] entries[i]).rel, '/'),
        ) == Some((entries[i].id, entries[i].executable)) by {
            law_planting_changes_one_path(
                d,
                path,
                e.id,
                e.executable,
                pieces(entries[i].rel, '/'),
            );
            if i < m {
                let p = pieces(entries[i].rel, '/');
                assert(!path.is_prefix_of(p)) by {
                    assert(entries[n - 1] == e);
                }
                if p == path {
                    assert(path =~= p.subrange(0, path.len() as int));
                }
            }
        }
        assert forall|q: Seq<Seq<char>>| #[trigger] looked_up(d2, q) is Some implies exists|i: int|
            0 <= i < n && pieces((#[trigger] entries[i]).rel, '/') == q by {
            law_planting_changes_one_path(d, path, e.id, e.executable, q);
            if q == path {
                assert(pieces(entries[n - 1].rel, '/') == q);
            } else {
                assert(looked_up(d, q) is Some);
                let i = choose|i: int|
                    0 <= i < m && pieces((#[trigger] entries[i]).rel, '/') == q;
                assert(pieces(entries[i].rel, '/') == q);
            }
        }
    }
}

proof fn lemma_planted_writable(
    d: Seq<EntryView>,
    path: Seq<Seq<char>>,
    id: Seq<char>,
    executable: bool,
)
    requires
        path.len() > 0,
        writable_dir(d),
        forall|i: int| 0 <= i < path.len() ==> writable_name(#[trigger] path[i]),
        well_formed_id(id),
        planted(d, path, id, executable) is Ok,
    ensures
        writable_dir(planted(d, path, id, executable)->Ok_0),
    decreases path.len(),
{
    let name = path[0];
    assert(writable_name(path[0]));
    if path.len() == 1 {
        lemma_with_name_writable(d, name, NodeView::File { id, executable });
    } else {
        let rest = path.drop_first();
        assert forall|i: int| 0 <= i < rest.len() implies writable_name(#[trigger] rest[i]) by {
            assert(rest[i] == path[i + 1]);
        }
        let inner = match node_at(d, name) {
            Some(NodeView::Dir(sub)) => sub,
            _ => Seq::empty(),
        };
        lemma_name_index(d, name);
        assert(writable_dir(inner));
        lemma_planted_writable(inner, rest, id, executable);
        let sub = planted(inner, rest, id, executable)->Ok_0;
        lemma_with_name_writable(d, name, NodeView::Dir(sub));
    }
}

proof fn lemma_with_name_writable(d: Seq<EntryView>, name: Seq<char>, node: NodeView)
    requires
        writable_dir(d),
        writable_name(name),
        match node {
            NodeView::File { id, .. } => well_formed_id(id),
            NodeView::Dir(sub) => writable_dir(sub),
        },
    ensures
        writable_dir(with_name(d, name, node)),
{
    let e = EntryView { name, node };
    let out = with_name(d, name, node);
    let k = insert_index(d, name);
    lemma_name_index(d, name);
    lemma_insert_index(d, name);
    assert forall|i: int| 0 <= i < out.len() implies writable_name((#[trigger] out[i]).name)
        && match out[i].node {
        NodeView::File { id, .. } => well_formed_id(id),
        NodeView::Dir(sub) => writable_dir(sub),
    } by {
        if name_index(d, name) < d.len() {
            if i != name_index(d, name) {
                assert(out[i] == d[i]);
            }
        } else if i < k {
            assert(out[i] == d[i]);
        } else if i > k {
            assert(out[i] == d[i - 1]);
        }
    }
}

/// Every component of the path survives being written.
pub open spec fn writable_path(rel: Seq<char>) -> bool {
    forall|i: int|
        0 <= i < pieces(rel, '/').len() ==> writable_name(#[trigger] pieces(rel, '/')[i])
}

pub proof fn lemma_grown_writable(entries: Seq<FileEntryView>, n: nat)
    requires
        n <= entries.len(),
        grown_tree(entries, n) is Ok,
        forall|i: int|
            0 <= i < entries.len() ==> writable_path((#[trigger] entries[i]).rel)
                && well_formed_id(entries[i].id),
    ensures
        writable_dir(grown_tree(entries, n)->Ok_0),
    decreases n,
{
    if n > 0 {
        lemma_grown_writable(entries, (n - 1) as nat);
        let e = entries[n - 1];
        crate::text::lemma_pieces_nonempty(e.rel, '/');
        lemma_planted_writable(
            grown_tree(entries, (n - 1) as nat)->Ok_0,
            pieces(e.rel, '/'),
            e.id,
            e.executable,
        );
    }
}

proof fn lemma_nonempty_all(parts: Seq<Seq<char>>)
    requires
        forall|i: int| 0 <= i < parts.len() ==> (#[trigger] parts[i]).len() > 0,
    ensures
        nonempty(parts) == parts,
    decreases parts.len(),
{
    if parts.len() == 0 {
        assert(nonempty(parts) =~= parts);
    } else {
        let head = parts.drop_last();
        assert forall|i: int| 0 <= i < head.len() implies (#[trigger] head[i]).len() > 0 by {
            assert(head[i] == parts[i]);
        }
        lemma_nonempty_all(head);
        assert(parts[parts.len() - 1].len() > 0);
        assert(head.push(parts.last()) =~= parts);
    }
}

/// A writable path has no empty components.
proof fn lemma_writable_components(rel: Seq<char>)
    requires
        writable_path(rel),
    ensures
        components(rel) == pieces(rel, '/'),
{
    assert forall|i: int| 0 <= i < pieces(rel, '/').len() implies (#[trigger] pieces(
        rel,
        '/',
    )[i]).len() > 0 by {
        assert(writable_name(pieces(rel, '/')[i]));
    }
    lemma_nonempty_all(pieces(rel, '/'));
}

/// The entries of the files of a working tree that can all be read.
pub open spec fn work_entries(work: Seq<LoadedView>) -> Seq<FileEntryView> {
    work.map_values(|f: LoadedView| loaded_entry(f, f.data->Ok_0))
}

/// The directory tree of a working tree that can be read.
pub open spec fn work_tree(work: Seq<LoadedView>) -> Seq<EntryView> {
    grown_tree(work_entries(work), work.len())->Ok_0
}

/// A working tree that can be recorded: every file can be read, every path
/// survives being written, and no path leads through another.
pub open spec fn recordable(work: Seq<LoadedView>) -> bool {
    &&& forall|i: int| 0 <= i < work.len() ==> (#[trigger] work[i]).data is Ok
    &&& forall|i: int| 0 <= i < work.len() ==> writable_path((#[trigger] work[i]).rel)
    &&& separate_paths(work_entries(work))
}

pub proof fn lemma_blobs_stored(objects: Map<Seq<char>, Seq<u8>>, work: Seq<LoadedView>)
    requires
        forall|i: int| 0 <= i < work.len() ==> (#[trigger] work[i]).data is Ok,
    ensures
        blobs_stored(objects, work).1 == Ok::<Seq<FileEntryView>, Seq<char>>(work_entries(work)),
    decreases work.len(),
{
    if work.len() == 0 {
        assert(work_entries(work) =~= Seq::<FileEntryView>::empty());
    } else {
        let head = work.drop_last();
        assert forall|i: int| 0 <= i < head.len() implies (#[trigger] head[i]).data is Ok by {
            assert(head[i] == work[i]);
        }
        lemma_blobs_stored(objects, head);
        assert(work[work.len() - 1].data is Ok);
        assert(work_entries(work) =~= work_entries(head).push(
            loaded_entry(work.last(), work.last().data->Ok_0),
        ));
    }
}

/// The objects of a working tree are held: each file's blob, and the trees.
pub open spec fn work_held(objects: Map<Seq<char>, Seq<u8>>, work: Seq<LoadedView>) -> bool {
    &&& forall|i: int|
        0 <= i < work.len() ==> held(objects, Kind::Blob, (#[trigger] work[i]).data->Ok_0)
    &&& dir_held(objects, work_tree(work))
}

/// In a store that holds a working tree's objects, the tree of that working
/// tree has each file at its path, with its bytes and exec bit, and nothing at
/// any other path.
pub proof fn law_work_tree_reads_back(
    objects: Map<Seq<char>, Seq<u8>>,
    work: Seq<LoadedView>,
    rel: Seq<char>,
)
    requires
        recordable(work),
        work_held(objects, work),
    ensures
        forall|i: int|
            0 <= i < work.len() && (#[trigger] work[i]).rel == rel ==> snapshot_file(
                objects,
                tree_id(work_tree(work)),
                rel,
            ) == Ok::<Option<(Seq<u8>, bool)>, Seq<char>>(
                Some((work[i].data->Ok_0, work[i].executable)),
            ),
        (forall|i: int|
            0 <= i < work.len() ==> components((#[trigger] work[i]).rel) != components(rel))
            ==> snapshot_file(objects, tree_id(work_tree(work)), rel) == Ok::<
            Option<(Seq<u8>, bool)>,
            Seq<char>,
        >(None),
{
    let entries = work_entries(work);
    let d = work_tree(work);
    law_grown_tree_has_its_files(entries, entries.len());
    assert forall|i: int| 0 <= i < entries.len() implies writable_path(
        (#[trigger] entries[i]).rel,
    ) && well_formed_id(entries[i].id) by {
        assert(writable_path(work[i].rel));
        law_object_ids_are_well_formed(Kind::Blob, work[i].data->Ok_0);
    }
    lemma_grown_writable(entries, entries.len());
    law_stored_directory_reads_back(objects, d, components(rel), rel);
    assert forall|i: int| 0 <= i < work.len() && (#[trigger] work[i]).rel == rel implies
        snapshot_file(objects, tree_id(d), rel) == Ok::<Option<(Seq<u8>, bool)>, Seq<char>>(
        Some((work[i].data->Ok_0, work[i].executable)),
    ) by {
        lemma_writable_components(rel);
        assert(entries[i].rel == rel);
        lemma_held(objects, Kind::Blob, work[i].data->Ok_0);
    }
    if forall|i: int|
        0 <= i < work.len() ==> components((#[trigger] work[i]).rel) != components(rel) {
        if looked_up(d, components(rel)) is Some {
            let i = choose|i: int|
                0 <= i < entries.len() && pieces((#[trigger] entries[i]).rel, '/') == components(
                    rel,
                );
            assert(writable_path(work[i].rel));
            lemma_writable_components(work[i].rel);
            assert(components(work[i].rel) == components(rel));
        }
    }
}

/// A snapshot of a recordable working tree reads back: at the path of each
/// file its bytes and exec bit, at any other path nothing.
pub proof fn law_snapshot_reads_back(
    s: StoreView,
    work: Seq<LoadedView>,
    label: Seq<char>,
    agent: Seq<char>,
    wanted: Option<u64>,
    time: i64,
    rel: Seq<char>,
)
    requires
        recordable(work),
        taken(s, work, label, agent, wanted, time).1 is Ok,
        work_held(taken(s, work, label, agent, wanted, time).0.objects, work),
    ensures
        ({
            let (after, r) = taken(s, work, label, agent, wanted, time);
            let found = snapshot_file(after.objects, r->Ok_0.tree, rel);
            &&& forall|i: int|
                0 <= i < work.len() && (#[trigger] work[i]).rel == rel ==> found == Ok::<
                    Option<(Seq<u8>, bool)>,
                    Seq<char>,
                >(Some((work[i].data->Ok_0, work[i].executable)))
            &&& (forall|i: int|
                0 <= i < work.len() ==> components((#[trigger] work[i]).rel) != components(rel))
                ==> found == Ok::<Option<(Seq<u8>, bool)>, Seq<char>>(None)
        }),
{
    let (after, r) = taken(s, work, label, agent, wanted, time);
    lemma_blobs_stored(s.objects, work);
    assert(r->Ok_0.tree == tree_id(work_tree(work)));
    law_work_tree_reads_back(after.objects, work, rel);
}

/// Every object that was in `old` is in `new`, unchanged.
pub open spec fn extends(old: Map<Seq<char>, Seq<u8>>, new: Map<Seq<char>, Seq<u8>>) -> bool {
    forall|id: Seq<char>| #[trigger]
        old.contains_key(id) ==> new.contains_key(id) && new[id] == old[id]
}

pub(crate) proof fn lemma_subtrees_extend(objects: Map<Seq<char>, Seq<u8>>, d: Seq<EntryView>, n: nat)
    ensures
        extends(objects, subtrees_stored(objects, d, n)),
    decreases d, n,
{
    if n > 0 && n <= d.len() {
        lemma_subtrees_extend(objects, d, (n - 1) as nat);
        if let NodeView::Dir(sub) = d[n - 1].node {
            let before = subtrees_stored(objects, d, (n - 1) as nat);
            lemma_subtrees_extend(before, sub, sub.len());
        }
    }
}

proof fn lemma_blobs_extend(objects: Map<Seq<char>, Seq<u8>>, work: Seq<LoadedView>)
    ensures
        extends(objects, blobs_stored(objects, work).0),
    decreases work.len(),
{
    if work.len() > 0 {
        lemma_blobs_extend(objects, work.drop_last());
    }
}

/// A snapshot, taken or refused, only adds to a store: no object and no turn
/// ref that was there changes, and a refused one writes no ref.
pub proof fn law_history_is_append_only(
    s: StoreView,
    work: Seq<LoadedView>,
    label: Seq<char>,
    agent: Seq<char>,
    wanted: Option<u64>,
    time: i64,
)
    ensures
        ({
            let (after, r) = taken(s, work, label, agent, wanted, time);
            &&& extends(s.objects, after.objects)
            &&& s.refs.is_prefix_of(after.refs)
            &&& r is Ok ==> after.refs.len() == s.refs.len() + 1
            &&& r is Err ==> after.refs == s.refs
            &&& after.ignore == s.ignore
        }),
{
    lemma_blobs_extend(s.objects, work);
    let (objects, r) = blobs_stored(s.objects, work);
    if let Ok(entries) = r {
        if let Ok(d) = grown_tree(entries, entries.len()) {
            lemma_subtrees_extend(objects, d, d.len());
            assert(extends(objects, tree_stored(objects, d)));
        }
    }
    let after = taken(s, work, label, agent, wanted, time).0;
    if after.refs.len() == s.refs.len() {
        assert(s.refs =~= after.refs.subrange(0, s.refs.len() as int));
    } else {
        assert(s.refs =~= after.refs.subrange(0, s.refs.len() as int));
    }
}

/// A well-formed id, written as a line and trimmed, is itself.
pub(crate) proof fn lemma_trimmed_id(id: Seq<char>)
    requires
        well_formed_id(id),
    ensures
        trimmed(id + "\n"@) == id,
{
    reveal_strlit("\n");
    let line = id + "\n"@;
    assert(is_hex(id[0]));
    assert(!white_space(line[0]));
    assert(trimmed_start(line) == line);
    assert(line.last() == '\n');
    assert(line.drop_last() =~= id);
    assert(is_hex(id[39]));
    assert(!white_space(id.last()));
    assert(trimmed_end(id) == id);
}

/// A snapshot that was taken is the latest turn, with a number above all
/// earlier ones, and its record reads back.
pub proof fn law_taken_snapshot_is_latest(
    s: StoreView,
    work: Seq<LoadedView>,
    label: Seq<char>,
    agent: Seq<char>,
    wanted: Option<u64>,
    time: i64,
)
    requires
        wanted is None ==> s.latest() != Some(u64::MAX),
        taken(s, work, label, agent, wanted, time).1 matches Ok(snap) && held(
            taken(s, work, label, agent, wanted, time).0.objects,
            Kind::Snapshot,
            encode_utf8(snapshot_text(snap)),
        ),
    ensures
        ({
            let (after, r) = taken(s, work, label, agent, wanted, time);
            let snap = r->Ok_0;
            &&& snap.turn > 0
            &&& s.latest() matches Some(l) ==> l < snap.turn
            &&& wanted matches Some(n) ==> snap.turn == n
            &&& after.latest() == Some(snap.turn)
            &&& after.turns() == s.turns().push(snap.turn)
            &&& after.snapshot(snap.turn) == Ok::<SnapshotView, Seq<char>>(snap)
            &&& snap.agent == cleaned(agent)
            &&& snap.label == cleaned(label)
            &&& snap.time == time
            &&& snap.parent is None <==> s.latest() is None
        }),
{
    let (after, r) = taken(s, work, label, agent, wanted, time);
    let snap = r->Ok_0;
    let s2 = before_record(s, work);
    let record = SnapshotView { id: Seq::empty(), ..snap };
    lemma_taken_shape(s, work, label, agent, wanted, time);
    assert(snapshot_text(record) == snapshot_text(snap));
    assert(s2.turns() == s.turns());
    lemma_recorded_state(s2, record);
}

/// The store as it is before a snapshot's record is written.
pub open spec fn before_record(s: StoreView, work: Seq<LoadedView>) -> StoreView {
    let (objects, b) = blobs_stored(s.objects, work);
    let entries = b->Ok_0;
    StoreView {
        objects: tree_stored(objects, grown_tree(entries, entries.len())->Ok_0),
        ..s
    }
}

/// What a taken snapshot's record says, and that writing it was the last step.
pub proof fn lemma_taken_shape(
    s: StoreView,
    work: Seq<LoadedView>,
    label: Seq<char>,
    agent: Seq<char>,
    wanted: Option<u64>,
    time: i64,
)
    requires
        wanted is None ==> s.latest() != Some(u64::MAX),
        taken(s, work, label, agent, wanted, time).1 is Ok,
    ensures
        ({
            let snap = taken(s, work, label, agent, wanted, time).1->Ok_0;
            let record = SnapshotView { id: Seq::empty(), ..snap };
            let s2 = before_record(s, work);
            &&& taken(s, work, label, agent, wanted, time) == recorded_state(s2, record)
            &&& snap.agent == cleaned(agent)
            &&& snap.label == cleaned(label)
            &&& snap.time == time
            &&& snap.parent is None <==> s.latest() is None
            &&& snap.turn > 0
            &&& s.latest() matches Some(l) ==> l < snap.turn
            &&& wanted matches Some(n) ==> snap.turn == n
            &&& writable_snapshot(record)
        }),
{
    let snap = taken(s, work, label, agent, wanted, time).1->Ok_0;
    let (objects, b) = blobs_stored(s.objects, work);
    let entries = b->Ok_0;
    let d = grown_tree(entries, entries.len())->Ok_0;
    let s2 = before_record(s, work);
    assert(s2.latest() == s.latest());
    law_object_ids_are_well_formed(Kind::Tree, tree_payload(d));
    lemma_cleaned_is_writable(agent);
    lemma_cleaned_is_writable(label);
    if let Some(n) = s2.latest() {
        assert(well_formed_id(s2.snapshot(n)->Ok_0.id));
    }
}

proof fn lemma_cleaned_is_writable(text: Seq<char>)
    ensures
        writable_text(cleaned(text)),
{
    law_cleaned_text_is_one_line(text);
    if cleaned(text).len() > 0 {
        assert(cleaned(text).contains(cleaned(text).last()));
    }
}

/// A record behind the latest turn becomes the latest and reads back.
proof fn lemma_recorded_state(s: StoreView, record: SnapshotView)
    requires
        s.latest() matches Some(l) ==> l < record.turn,
        recorded_state(s, record).1 is Ok,
        writable_snapshot(record),
        held(
            recorded_state(s, record).0.objects,
            Kind::Snapshot,
            encode_utf8(snapshot_text(record)),
        ),
    ensures
        ({
            let (after, r) = recorded_state(s, record);
            &&& after.latest() == Some(record.turn)
            &&& after.turns() == s.turns().push(record.turn)
            &&& after.snapshot(record.turn) == r
        }),
{
    let payload = encode_utf8(snapshot_text(record));
    let id = object_id(Kind::Snapshot, payload);
    let (after, r) = recorded_state(s, record);
    let s3 = StoreView { objects: stored(s.objects, Kind::Snapshot, payload), ..s };
    assert(s3.turns() == s.turns());
    law_recorded_turn_is_latest(s3, record.turn, id);
    law_object_ids_are_well_formed(Kind::Snapshot, payload);
    lemma_trimmed_id(id);
    lemma_held(after.objects, Kind::Snapshot, payload);
    law_encoded_snapshot_reads_back(id, record);
}

proof fn lemma_same_files_no_change(
    objects: Map<Seq<char>, Seq<u8>>,
    files: Seq<FileEntryView>,
    n: nat,
)
    requires
        n <= files.len(),
    ensures
        stats_of_new(objects, files, files, n) == Ok::<Stats, Seq<char>>(no_changes()),
    decreases n,
{
    if n > 0 {
        lemma_same_files_no_change(objects, files, (n - 1) as nat);
        lemma_last_index(files, files[n - 1].rel);
    }
}

proof fn lemma_same_files_none_gone(
    objects: Map<Seq<char>, Seq<u8>>,
    files: Seq<FileEntryView>,
    n: nat,
)
    requires
        n <= files.len(),
    ensures
        stats_of_old(objects, files, files, n) == Ok::<Stats, Seq<char>>(no_changes()),
    decreases n,
{
    if n == 0 {
        lemma_same_files_no_change(objects, files, files.len());
    } else {
        lemma_same_files_none_gone(objects, files, (n - 1) as nat);
        lemma_last_index(files, files[n - 1].rel);
    }
}

/// Files that did not change make empty statistics.
pub proof fn law_unchanged_files_have_empty_stats(
    objects: Map<Seq<char>, Seq<u8>>,
    files: Seq<FileEntryView>,
)
    ensures
        file_stats(objects, files, files) == Ok::<Stats, Seq<char>>(no_changes()),
{
    lemma_same_files_none_gone(objects, files, files.len());
}

/// An unchanged working tree still records a turn, with the same tree id.
pub proof fn law_unchanged_tree_keeps_its_id(
    s: StoreView,
    work: Seq<LoadedView>,
    label: Seq<char>,
    agent: Seq<char>,
    wanted: Option<u64>,
    time: i64,
    t: StoreView,
    label2: Seq<char>,
    agent2: Seq<char>,
    wanted2: Option<u64>,
    time2: i64,
)
    requires
        taken(s, work, label, agent, wanted, time).1 is Ok,
        taken(t, work, label2, agent2, wanted2, time2).1 is Ok,
    ensures
        taken(s, work, label, agent, wanted, time).1->Ok_0.tree == taken(
            t,
            work,
            label2,
            agent2,
            wanted2,
            time2,
        ).1->Ok_0.tree,
{
    lemma_same_entries(s.objects, t.objects, work);
}

proof fn lemma_same_entries(
    a: Map<Seq<char>, Seq<u8>>,
    b: Map<Seq<char>, Seq<u8>>,
    work: Seq<LoadedView>,
)
    ensures
        blobs_stored(a, work).1 == blobs_stored(b, work).1,
    decreases work.len(),
{
    if work.len() > 0 {
        lemma_same_entries(a, b, work.drop_last());
    }
}

/// Every object is stored under the digest of its bytes.
pub open spec fn addressed(objects: Map<Seq<char>, Seq<u8>>) -> bool {
    forall|id: Seq<char>| #[trigger] objects.contains_key(id) ==> sha1_hex(objects[id]) == id
}

proof fn lemma_blobs_addressed(objects: Map<Seq<char>, Seq<u8>>, work: Seq<LoadedView>)
    requires
        addressed(objects),
    ensures
        addressed(blobs_stored(objects, work).0),
        blobs_stored(objects, work).1 is Ok ==> forall|i: int|
            0 <= i < work.len() ==> blobs_stored(objects, work).0.contains_key(
                object_id(Kind::Blob, (#[trigger] work[i]).data->Ok_0),
            ),
    decreases work.len(),
{
    if work.len() > 0 {
        let head = work.drop_last();
        lemma_blobs_addressed(objects, head);
        if blobs_stored(objects, work).1 is Ok {
            assert forall|i: int| 0 <= i < work.len() implies blobs_stored(
                objects,
                work,
            ).0.contains_key(object_id(Kind::Blob, (#[trigger] work[i]).data->Ok_0)) by {
                if i < head.len() {
                    assert(head[i] == work[i]);
                }
            }
        }
    }
}

/// The trees of a directory and of everything below it are in the table.
pub open spec fn dir_present(objects: Map<Seq<char>, Seq<u8>>, d: Seq<EntryView>) -> bool
    decreases d,
{
    &&& objects.contains_key(tree_id(d))
    &&& forall|i: int|
        0 <= i < d.len() ==> match (#[trigger] d[i]).node {
            NodeView::File { .. } => true,
            NodeView::Dir(sub) => dir_present(objects, sub),
        }
}

proof fn lemma_present_extends(
    old: Map<Seq<char>, Seq<u8>>,
    new: Map<Seq<char>, Seq<u8>>,
    d: Seq<EntryView>,
)
    requires
        extends(old, new),
        dir_present(old, d),
    ensures
        dir_present(new, d),
    decreases d,
{
    assert forall|i: int| 0 <= i < d.len() implies match (#[trigger] d[i]).node {
        NodeView::File { .. } => true,
        NodeView::Dir(sub) => dir_present(new, sub),
    } by {
        if let NodeView::Dir(sub) = d[i].node {
            lemma_present_extends(old, new, sub);
        }
    }
}

proof fn lemma_subtrees_addressed(objects: Map<Seq<char>, Seq<u8>>, d: Seq<EntryView>, n: nat)
    requires
        addressed(objects),
        n <= d.len(),
    ensures
        addressed(subtrees_stored(objects, d, n)),
        forall|i: int|
            0 <= i < n ==> match (#[trigger] d[i]).node {
                NodeView::File { .. } => true,
                NodeView::Dir(sub) => dir_present(subtrees_stored(objects, d, n), sub),
            },
    decreases d, n,
{
    if n > 0 {
        let m = (n - 1) as nat;
        lemma_subtrees_addressed(objects, d, m);
        let before = subtrees_stored(objects, d, m);
        let after = subtrees_stored(objects, d, n);
        if let NodeView::Dir(sub) = d[n - 1].node {
            lemma_subtrees_addressed(before, sub, sub.len());
            lemma_subtrees_extend(before, sub, sub.len());
            let mid = subtrees_stored(before, sub, sub.len());
            assert(extends(mid, after));
            assert(dir_present(after, sub)) by {
                assert forall|i: int| 0 <= i < sub.len() implies match (#[trigger] sub[i]).node {
                    NodeView::File { .. } => true,
                    NodeView::Dir(inner) => dir_present(after, inner),
                } by {
                    if let NodeView::Dir(inner) = sub[i].node {
                        lemma_present_extends(mid, after, inner);
                    }
                }
            }
        }
        assert(extends(before, after)) by {
            if let NodeView::Dir(sub) = d[n - 1].node {
                lemma_subtrees_extend(before, sub, sub.len());
            }
        }
        assert forall|i: int| 0 <= i < n implies match (#[trigger] d[i]).node {
            NodeView::File { .. } => true,
            NodeView::Dir(sub) => dir_present(after, sub),
        } by {
            if i < m {
                if let NodeView::Dir(sub) = d[i].node {
                    lemma_present_extends(before, after, sub);
                }
            }
        }
    }
}

/// A snapshot stores every object it needs: each file's blob, the tree of each
/// directory, and the record; and every object of the store stays under the
/// digest of its bytes. So only a second content with the same digest could
/// keep one of them from being held.
pub proof fn law_snapshot_objects_are_present(
    s: StoreView,
    work: Seq<LoadedView>,
    label: Seq<char>,
    agent: Seq<char>,
    wanted: Option<u64>,
    time: i64,
)
    requires
        wanted is None ==> s.latest() != Some(u64::MAX),
        recordable(work),
        addressed(s.objects),
        taken(s, work, label, agent, wanted, time).1 is Ok,
    ensures
        ({
            let (after, r) = taken(s, work, label, agent, wanted, time);
            &&& addressed(after.objects)
            &&& forall|i: int|
                0 <= i < work.len() ==> after.objects.contains_key(
                    object_id(Kind::Blob, (#[trigger] work[i]).data->Ok_0),
                )
            &&& dir_present(after.objects, work_tree(work))
            &&& after.objects.contains_key(r->Ok_0.id)
        }),
{
    let (after, r) = taken(s, work, label, agent, wanted, time);
    let (objects, b) = blobs_stored(s.objects, work);
    let d = work_tree(work);
    let s2 = before_record(s, work);
    lemma_blobs_stored(s.objects, work);
    lemma_blobs_addressed(s.objects, work);
    lemma_subtrees_addressed(objects, d, d.len());
    lemma_subtrees_extend(objects, d, d.len());
    lemma_taken_shape(s, work, label, agent, wanted, time);
    let mid = subtrees_stored(objects, d, d.len());
    assert(s2.objects == tree_stored(objects, d));
    assert(extends(mid, s2.objects));
    assert(dir_present(s2.objects, d)) by {
        assert forall|i: int| 0 <= i < d.len() implies match (#[trigger] d[i]).node {
            NodeView::File { .. } => true,
            NodeView::Dir(sub) => dir_present(s2.objects, sub),
        } by {
            if let NodeView::Dir(sub) = d[i].node {
                lemma_present_extends(mid, s2.objects, sub);
            }
        }
    }
    assert(extends(s2.objects, after.objects));
    lemma_present_extends(s2.objects, after.objects, d);
}

} // verus!
