//! The listing of a stored directory: it has exactly the files that were put
//! into it, it is never nested deeper than there are objects, and a working
//! tree that was just recorded has no changes.

use vstd::multiset::Multiset;
use vstd::prelude::*;

use crate::object::{well_formed_id, Kind};
use crate::order::{distinct_keys, in_order, law_sorted_by, lemma_one_order};
use crate::readback::{
    dir_held, held, lemma_blobs_stored, lemma_dir_reads_back, lemma_grown_writable,
    lemma_insert_index, lemma_modes, lemma_tree_entries, law_grown_tree_has_its_files, recordable,
    separate_paths, tree_entry, work_entries, work_held, work_tree, writable_dir, writable_name,
    writable_path,
};
use crate::restore::{compared, has_path, missing, no_difference, tree_changes, ChangesView};
use crate::snapshot::{
    by_path, entry_for, flat_entries, flat_tree, grown_tree, last_index, lemma_last_index,
    path_below, snapshot_files, taken, FileEntryView, LoadedView,
};
use crate::store::StoreView;
use crate::text::{joined_by, lemma_joined_pieces, pieces};
use crate::tree::{
    insert_index, lemma_name_index, looked_up, name_index, node_at, planted, tree_entries, tree_id,
    tree_payload, with_name, EntryView, NodeView,
};

verus! {

broadcast use vstd::multiset::group_multiset_axioms;

/// The files of the first `n` names of a directory and of everything below
/// them, in the order of the names.
pub open spec fn listing(d: Seq<EntryView>, n: nat, prefix: Seq<char>) -> Seq<FileEntryView>
    decreases d, n,
{
    if n == 0 || n > d.len() {
        Seq::empty()
    } else {
        let e = d[n - 1];
        let rel = path_below(prefix, e.name);
        listing(d, (n - 1) as nat, prefix) + match e.node {
            NodeView::File { id, executable } => seq![FileEntryView { rel, id, executable }],
            NodeView::Dir(sub) => listing(sub, sub.len(), rel),
        }
    }
}

/// How many directories are nested below the first `n` names.
pub open spec fn levels_below(d: Seq<EntryView>, n: nat) -> nat
    decreases d, n,
{
    if n == 0 || n > d.len() {
        0
    } else {
        let before = levels_below(d, (n - 1) as nat);
        let here = match d[n - 1].node {
            NodeView::File { .. } => 0,
            NodeView::Dir(sub) => 1 + levels_below(sub, sub.len()),
        };
        if here > before {
            here
        } else {
            before
        }
    }
}

proof fn lemma_flat_tree(
    objects: Map<Seq<char>, Seq<u8>>,
    d: Seq<EntryView>,
    prefix: Seq<char>,
    depth: nat,
)
    requires
        dir_held(objects, d),
        writable_dir(d),
        depth >= 1 + levels_below(d, d.len()),
    ensures
        flat_tree(objects, tree_id(d), prefix, depth) == Ok::<Seq<FileEntryView>, Seq<char>>(
            listing(d, d.len(), prefix),
        ),
    decreases d, d.len() + 1,
{
    lemma_dir_reads_back(objects, d);
    lemma_tree_entries(d, d.len());
    lemma_flat_entries(objects, d, d.len(), prefix, (depth - 1) as nat);
}

proof fn lemma_flat_entries(
    objects: Map<Seq<char>, Seq<u8>>,
    d: Seq<EntryView>,
    n: nat,
    prefix: Seq<char>,
    depth: nat,
)
    requires
        n <= d.len(),
        dir_held(objects, d),
        writable_dir(d),
        depth >= levels_below(d, n),
    ensures
        flat_entries(objects, tree_entries(d, d.len()), n, prefix, depth) == Ok::<
            Seq<FileEntryView>,
            Seq<char>,
        >(listing(d, n, prefix)),
    decreases d, n,
{
    lemma_tree_entries(d, d.len());
    if n > 0 {
        lemma_flat_entries(objects, d, (n - 1) as nat, prefix, depth);
        let e = d[n - 1];
        let entry = tree_entries(d, d.len())[n - 1];
        assert(entry == tree_entry(e));
        lemma_modes();
        let rel = path_below(prefix, e.name);
        match e.node {
            NodeView::File { id, executable } => {
                let one = FileEntryView { rel, id, executable };
                let before = listing(d, (n - 1) as nat, prefix);
                assert(before.push(one) =~= before + seq![one]);
            },
            NodeView::Dir(sub) => {
                lemma_flat_tree(objects, sub, rel, depth);
            },
        }
    }
}

/// Two held directories with the same tree id are the same.
proof fn lemma_same_tree_id(
    objects: Map<Seq<char>, Seq<u8>>,
    d: Seq<EntryView>,
    e: Seq<EntryView>,
)
    requires
        dir_held(objects, d),
        dir_held(objects, e),
        writable_dir(d),
        writable_dir(e),
        tree_id(d) == tree_id(e),
    ensures
        d == e,
    decreases d,
{
    lemma_dir_reads_back(objects, d);
    lemma_dir_reads_back(objects, e);
    lemma_tree_entries(d, d.len());
    lemma_tree_entries(e, e.len());
    lemma_modes();
    assert(tree_entries(d, d.len()) == tree_entries(e, e.len()));
    assert forall|i: int| 0 <= i < d.len() implies d[i] == e[i] by {
        assert(tree_entries(d, d.len())[i] == tree_entry(d[i]));
        assert(tree_entries(e, e.len())[i] == tree_entry(e[i]));
        match d[i].node {
            NodeView::File { id, executable } => {},
            NodeView::Dir(sub) => {
                if let NodeView::Dir(other) = e[i].node {
                    lemma_same_tree_id(objects, sub, other);
                }
            },
        }
    }
    assert(d =~= e);
}

/// Some name leads to the deepest nesting.
proof fn lemma_deepest(d: Seq<EntryView>, n: nat) -> (i: int)
    requires
        n <= d.len(),
        levels_below(d, n) > 0,
    ensures
        0 <= i < n,
        d[i].node matches NodeView::Dir(sub) && levels_below(d, n) == 1 + levels_below(
            sub,
            sub.len(),
        ),
    decreases n,
{
    let before = levels_below(d, (n - 1) as nat);
    let here = match d[n - 1].node {
        NodeView::File { .. } => 0,
        NodeView::Dir(sub) => 1 + levels_below(sub, sub.len()),
    };
    if here > before {
        n - 1
    } else {
        lemma_deepest(d, (n - 1) as nat)
    }
}

/// The ids of the directories on the way to the deepest one.
pub(crate) proof fn lemma_chain(objects: Map<Seq<char>, Seq<u8>>, d: Seq<EntryView>) -> (ids: Set<Seq<char>>)
    requires
        dir_held(objects, d),
        writable_dir(d),
    ensures
        ids.finite(),
        ids.subset_of(objects.dom()),
        ids.len() == 1 + levels_below(d, d.len()),
        forall|id: Seq<char>| #[trigger]
            ids.contains(id) ==> exists|e: Seq<EntryView>| #[trigger]
                tree_id(e) == id && dir_held(objects, e) && writable_dir(e) && levels_below(
                    e,
                    e.len(),
                ) <= levels_below(d, d.len()),
    decreases d,
{
    let top = tree_id(d);
    if levels_below(d, d.len()) == 0 {
        let ids = Set::<Seq<char>>::empty().insert(top);
        assert(held(objects, Kind::Tree, tree_payload(d)));
        assert forall|id: Seq<char>| #[trigger] ids.contains(id) implies exists|e: Seq<EntryView>|
            #[trigger]
            tree_id(e) == id && dir_held(objects, e) && writable_dir(e) && levels_below(e, e.len())
                <= levels_below(d, d.len()) by {
            assert(tree_id(d) == id);
        }
        ids
    } else {
        let i = lemma_deepest(d, d.len());
        let sub = d[i].node->Dir_0;
        let below = lemma_chain(objects, sub);
        if below.contains(top) {
            let e = choose|e: Seq<EntryView>| #[trigger]
                tree_id(e) == top && dir_held(objects, e) && writable_dir(e) && levels_below(
                    e,
                    e.len(),
                ) <= levels_below(sub, sub.len());
            lemma_same_tree_id(objects, d, e);
            assert(false);
        }
        let ids = below.insert(top);
        assert(held(objects, Kind::Tree, tree_payload(d)));
        assert forall|id: Seq<char>| #[trigger] ids.contains(id) implies exists|e: Seq<EntryView>|
            #[trigger]
            tree_id(e) == id && dir_held(objects, e) && writable_dir(e) && levels_below(e, e.len())
                <= levels_below(d, d.len()) by {
            if id == top {
                assert(tree_id(d) == id);
            } else {
                let e = choose|e: Seq<EntryView>| #[trigger]
                    tree_id(e) == id && dir_held(objects, e) && writable_dir(e) && levels_below(
                        e,
                        e.len(),
                    ) <= levels_below(sub, sub.len());
                assert(tree_id(e) == id);
            }
        }
        ids
    }
}

/// A held directory is never nested deeper than there are objects, so that its
/// listing is never cut short.
pub proof fn law_held_directory_lists_fully(
    objects: Map<Seq<char>, Seq<u8>>,
    d: Seq<EntryView>,
)
    requires
        dir_held(objects, d),
        writable_dir(d),
        objects.dom().finite(),
    ensures
        snapshot_files(objects, tree_id(d)) == Ok::<Seq<FileEntryView>, Seq<char>>(
            by_path(listing(d, d.len(), Seq::empty())),
        ),
{
    let ids = lemma_chain(objects, d);
    vstd::set_lib::lemma_len_subset(ids, objects.dom());
    lemma_flat_tree(objects, d, Seq::empty(), objects.len());
}

/// The files of the first `n` names and of everything below them, without an
/// order.
spec fn bag(d: Seq<EntryView>, n: nat, prefix: Seq<char>) -> Multiset<FileEntryView>
    decreases d, n,
{
    if n == 0 || n > d.len() {
        Multiset::empty()
    } else {
        bag(d, (n - 1) as nat, prefix).add(entry_bag(d[n - 1], prefix))
    }
}

/// The files of one name and of everything below it.
spec fn entry_bag(e: EntryView, prefix: Seq<char>) -> Multiset<FileEntryView>
    decreases e,
{
    let rel = path_below(prefix, e.name);
    match e.node {
        NodeView::File { id, executable } => Multiset::singleton(
            FileEntryView { rel, id, executable },
        ),
        NodeView::Dir(sub) => bag(sub, sub.len(), rel),
    }
}

proof fn lemma_listing_bag(d: Seq<EntryView>, n: nat, prefix: Seq<char>)
    requires
        n <= d.len(),
    ensures
        listing(d, n, prefix).to_multiset() == bag(d, n, prefix),
    decreases d, n,
{
    broadcast use vstd::seq_lib::group_to_multiset_ensures;

    if n == 0 {
        assert(listing(d, n, prefix).to_multiset() =~= bag(d, n, prefix));
    } else {
        lemma_listing_bag(d, (n - 1) as nat, prefix);
        let e = d[n - 1];
        let rel = path_below(prefix, e.name);
        let before = listing(d, (n - 1) as nat, prefix);
        match e.node {
            NodeView::File { id, executable } => {
                let one = FileEntryView { rel, id, executable };
                assert(before + seq![one] =~= before.push(one));
                assert(entry_bag(e, prefix) == Multiset::singleton(one));
                assert(bag(d, n, prefix) =~= bag(d, (n - 1) as nat, prefix).insert(one));
            },
            NodeView::Dir(sub) => {
                lemma_listing_bag(sub, sub.len(), rel);
                assert(entry_bag(e, prefix) == bag(sub, sub.len(), rel));
                vstd::seq_lib::lemma_multiset_commutative(before, listing(sub, sub.len(), rel));
            },
        }
    }
}

proof fn lemma_bag_insert(d: Seq<EntryView>, k: int, e: EntryView, n: nat, prefix: Seq<char>)
    requires
        0 <= k <= d.len(),
        n <= d.len() + 1,
    ensures
        n <= k ==> bag(d.insert(k, e), n, prefix) == bag(d, n, prefix),
        n > k ==> bag(d.insert(k, e), n, prefix) == bag(d, (n - 1) as nat, prefix).add(
            entry_bag(e, prefix),
        ),
    decreases n,
{
    let out = d.insert(k, e);
    if n > 0 {
        let m = (n - 1) as nat;
        lemma_bag_insert(d, k, e, m, prefix);
        if n <= k {
            assert(out[n - 1] == d[n - 1]);
        } else if n == k + 1 {
            assert(out[n - 1] == e);
        } else {
            assert(out[n - 1] == d[n - 2]);
            assert(bag(out, n, prefix) =~= bag(d, m, prefix).add(entry_bag(e, prefix)));
        }
    }
}

proof fn lemma_bag_update(
    d: Seq<EntryView>,
    k: int,
    e: EntryView,
    more: Multiset<FileEntryView>,
    n: nat,
    prefix: Seq<char>,
)
    requires
        0 <= k < d.len(),
        n <= d.len(),
        entry_bag(e, prefix) == entry_bag(d[k], prefix).add(more),
    ensures
        n <= k ==> bag(d.update(k, e), n, prefix) == bag(d, n, prefix),
        n > k ==> bag(d.update(k, e), n, prefix) == bag(d, n, prefix).add(more),
    decreases n,
{
    let out = d.update(k, e);
    if n > 0 {
        lemma_bag_update(d, k, e, more, (n - 1) as nat, prefix);
        if n == k + 1 {
            assert(out[n - 1] == e);
            assert(bag(out, n, prefix) =~= bag(d, n, prefix).add(more));
        } else {
            assert(out[n - 1] == d[n - 1]);
            if n > k {
                assert(bag(out, n, prefix) =~= bag(d, n, prefix).add(more));
            }
        }
    }
}

/// Nothing stands at the path, and no file stands on the way.
spec fn vacant(d: Seq<EntryView>, path: Seq<Seq<char>>) -> bool
    decreases path.len(),
{
    if path.len() <= 1 {
        node_at(d, path[0]) is None
    } else {
        match node_at(d, path[0]) {
            None => true,
            Some(NodeView::Dir(sub)) => vacant(sub, path.drop_first()),
            Some(NodeView::File { .. }) => false,
        }
    }
}

/// The path of a file, from the directory `prefix` down.
pub open spec fn path_from(prefix: Seq<char>, path: Seq<Seq<char>>) -> Seq<char>
    decreases path.len(),
{
    if path.len() == 0 {
        prefix
    } else {
        path_from(path_below(prefix, path[0]), path.drop_first())
    }
}

/// Planting a file at a vacant path adds that file and nothing else.
proof fn lemma_planted_bag(
    d: Seq<EntryView>,
    path: Seq<Seq<char>>,
    id: Seq<char>,
    executable: bool,
    prefix: Seq<char>,
)
    requires
        path.len() > 0,
        vacant(d, path),
    ensures
        planted(d, path, id, executable) is Ok,
        ({
            let out = planted(d, path, id, executable)->Ok_0;
            bag(out, out.len(), prefix) == bag(d, d.len(), prefix).insert(
                FileEntryView { rel: path_from(prefix, path), id, executable },
            )
        }),
    decreases path.len(),
{
    let name = path[0];
    let rel = path_below(prefix, name);
    let one = FileEntryView { rel: path_from(prefix, path), id, executable };
    lemma_name_index(d, name);
    lemma_insert_index(d, name);
    let k = insert_index(d, name);
    let rest = path.drop_first();
    if path.len() == 1 {
        let e = EntryView { name, node: NodeView::File { id, executable } };
        lemma_bag_insert(d, k, e, d.len() + 1, prefix);
        assert(path_from(prefix, path) == rel) by {
            assert(rest.len() == 0);
            assert(path_from(rel, rest) == rel);
        }
        let out = with_name(d, name, NodeView::File { id, executable });
        assert(out == d.insert(k, e));
        assert(bag(out, out.len(), prefix) =~= bag(d, d.len(), prefix).insert(one));
    } else {
        match node_at(d, name) {
            None => {
                assert(vacant(Seq::empty(), rest)) by {
                    lemma_name_index(Seq::<EntryView>::empty(), rest[0]);
                }
                lemma_planted_bag(Seq::empty(), rest, id, executable, rel);
                let sub = planted(Seq::empty(), rest, id, executable)->Ok_0;
                let e = EntryView { name, node: NodeView::Dir(sub) };
                lemma_bag_insert(d, k, e, d.len() + 1, prefix);
                let out = with_name(d, name, NodeView::Dir(sub));
                assert(out == d.insert(k, e));
                assert(bag(out, out.len(), prefix) =~= bag(d, d.len(), prefix).insert(one));
            },
            Some(NodeView::Dir(inner)) => {
                lemma_planted_bag(inner, rest, id, executable, rel);
                let sub = planted(inner, rest, id, executable)->Ok_0;
                let e = EntryView { name, node: NodeView::Dir(sub) };
                let i = name_index(d, name);
                assert(d[i].name == name && d[i].node == NodeView::Dir(inner));
                let more = Multiset::singleton(one);
                assert(entry_bag(e, prefix) =~= entry_bag(d[i], prefix).add(more));
                lemma_bag_update(d, i, e, more, d.len(), prefix);
                let out = with_name(d, name, NodeView::Dir(sub));
                assert(out == d.update(i, e));
                assert(bag(out, out.len(), prefix) =~= bag(d, d.len(), prefix).insert(one));
            },
            Some(NodeView::File { .. }) => {},
        }
    }
}

/// No directory below is empty.
spec fn no_empty_dirs(d: Seq<EntryView>) -> bool
    decreases d,
{
    forall|i: int|
        0 <= i < d.len() ==> match (#[trigger] d[i]).node {
            NodeView::File { .. } => true,
            NodeView::Dir(sub) => sub.len() > 0 && no_empty_dirs(sub),
        }
}

proof fn lemma_with_name_nonempty(d: Seq<EntryView>, name: Seq<char>, node: NodeView)
    requires
        no_empty_dirs(d),
        match node {
            NodeView::File { .. } => true,
            NodeView::Dir(sub) => sub.len() > 0 && no_empty_dirs(sub),
        },
    ensures
        no_empty_dirs(with_name(d, name, node)),
        with_name(d, name, node).len() > 0,
{
    let out = with_name(d, name, node);
    let k = insert_index(d, name);
    lemma_name_index(d, name);
    lemma_insert_index(d, name);
    assert forall|i: int| 0 <= i < out.len() implies match (#[trigger] out[i]).node {
        NodeView::File { .. } => true,
        NodeView::Dir(sub) => sub.len() > 0 && no_empty_dirs(sub),
    } by {
        if name_index(d, name) < d.len() {
            if i != name_index(d, name) {
                assert(out[i] == d[i]);
            }
        } else if i < k {
            assert(out[i] == d[i]);
        } else if i > k {
            assert(out[i] == d[i - 1]);
        }
    }
}

proof fn lemma_planted_nonempty(
    d: Seq<EntryView>,
    path: Seq<Seq<char>>,
    id: Seq<char>,
    executable: bool,
)
    requires
        path.len() > 0,
        no_empty_dirs(d),
        planted(d, path, id, executable) is Ok,
    ensures
        no_empty_dirs(planted(d, path, id, executable)->Ok_0),
        planted(d, path, id, executable)->Ok_0.len() > 0,
    decreases path.len(),
{
    let name = path[0];
    if path.len() == 1 {
        lemma_with_name_nonempty(d, name, NodeView::File { id, executable });
    } else {
        let inner = match node_at(d, name) {
            Some(NodeView::Dir(sub)) => sub,
            _ => Seq::empty(),
        };
        lemma_name_index(d, name);
        assert(no_empty_dirs(inner));
        lemma_planted_nonempty(inner, path.drop_first(), id, executable);
        let sub = planted(inner, path.drop_first(), id, executable)->Ok_0;
        lemma_with_name_nonempty(d, name, NodeView::Dir(sub));
    }
}

/// A directory with anything in it, but no empty directory, has a file.
proof fn lemma_has_file(d: Seq<EntryView>) -> (path: Seq<Seq<char>>)
    requires
        d.len() > 0,
        no_empty_dirs(d),
    ensures
        path.len() > 0,
        looked_up(d, path) is Some,
    decreases d,
{
    let name = d[0].name;
    assert(name_index(d, name) == 0);
    match d[0].node {
        NodeView::File { id, executable } => {
            let path = seq![name];
            assert(path[0] == name);
            path
        },
        NodeView::Dir(sub) => {
            let below = lemma_has_file(sub);
            let path = seq![name] + below;
            assert(path.drop_first() =~= below);
            path
        },
    }
}

/// A path that is neither taken, nor leads through a file, nor names a
/// directory with files, is vacant.
proof fn lemma_vacant(d: Seq<EntryView>, path: Seq<Seq<char>>)
    requires
        path.len() > 0,
        no_empty_dirs(d),
        forall|q: Seq<Seq<char>>| #[trigger]
            looked_up(d, q) is Some ==> !path.is_prefix_of(q) && !q.is_prefix_of(path),
    ensures
        vacant(d, path),
    decreases path.len(),
{
    let name = path[0];
    lemma_name_index(d, name);
    match node_at(d, name) {
        None => {},
        Some(NodeView::File { id, executable }) => {
            let q = seq![name];
            assert(looked_up(d, q) is Some);
            assert(q =~= path.subrange(0, 1));
            assert(false);
        },
        Some(NodeView::Dir(sub)) => {
            assert(sub.len() > 0 && no_empty_dirs(sub));
            if path.len() == 1 {
                let below = lemma_has_file(sub);
                let q = seq![name] + below;
                assert(q.drop_first() =~= below);
                assert(looked_up(d, q) is Some);
                assert(path =~= q.subrange(0, 1));
                assert(false);
            } else {
                let rest = path.drop_first();
                assert forall|r: Seq<Seq<char>>| #[trigger] looked_up(sub, r) is Some implies
                    !rest.is_prefix_of(r) && !r.is_prefix_of(rest) by {
                    let q = seq![name] + r;
                    assert(q.drop_first() =~= r);
                    assert(looked_up(d, q) is Some);
                    if rest.is_prefix_of(r) {
                        assert(path =~= q.subrange(0, path.len() as int)) by {
                            assert(rest =~= r.subrange(0, rest.len() as int));
                            assert forall|i: int| 0 <= i < path.len() implies path[i] == q[i] by {
                                if i > 0 {
                                    assert(rest[i - 1] == r.subrange(0, rest.len() as int)[i - 1]);
                                }
                            }
                        }
                    }
                    if r.is_prefix_of(rest) {
                        assert(q =~= path.subrange(0, q.len() as int)) by {
                            assert(r =~= rest.subrange(0, r.len() as int));
                            assert forall|i: int| 0 <= i < q.len() implies q[i] == path[i] by {
                                if i > 0 {
                                    assert(r[i - 1] == rest.subrange(0, r.len() as int)[i - 1]);
                                }
                            }
                        }
                    }
                }
                lemma_vacant(sub, rest);
            }
        },
    }
}

proof fn lemma_path_from_push(prefix: Seq<char>, path: Seq<Seq<char>>, name: Seq<char>)
    ensures
        path_from(prefix, path.push(name)) == path_below(path_from(prefix, path), name),
    decreases path.len(),
{
    let whole = path.push(name);
    if path.len() == 0 {
        assert(whole.drop_first() =~= Seq::<Seq<char>>::empty());
        assert(whole[0] == name);
        assert(path_from(path_below(prefix, name), whole.drop_first()) == path_below(prefix, name));
    } else {
        assert(whole.drop_first() =~= path.drop_first().push(name));
        assert(whole[0] == path[0]);
        lemma_path_from_push(path_below(prefix, path[0]), path.drop_first(), name);
    }
}

/// From the root down, the path of a file is its components joined.
pub(crate) proof fn lemma_path_from_root(path: Seq<Seq<char>>)
    requires
        path.len() > 0,
        forall|i: int| 0 <= i < path.len() ==> (#[trigger] path[i]).len() > 0,
    ensures
        path_from(Seq::empty(), path) == joined_by(path, '/'),
        path_from(Seq::empty(), path).len() > 0,
    decreases path.len(),
{
    let head = path.drop_last();
    let name = path.last();
    assert(head.push(name) =~= path);
    lemma_path_from_push(Seq::empty(), head, name);
    assert(path[path.len() - 1].len() > 0);
    if head.len() == 0 {
        assert(path_from(Seq::<char>::empty(), head) =~= Seq::<char>::empty());
    } else {
        assert forall|i: int| 0 <= i < head.len() implies (#[trigger] head[i]).len() > 0 by {
            assert(head[i] == path[i]);
        }
        lemma_path_from_root(head);
        reveal_strlit("/");
        let before = joined_by(head, '/');
        assert(path_below(before, name) =~= before.push('/') + name);
    }
}

proof fn lemma_writable_path_from_root(rel: Seq<char>)
    requires
        writable_path(rel),
    ensures
        path_from(Seq::empty(), pieces(rel, '/')) == rel,
{
    let path = pieces(rel, '/');
    crate::text::lemma_pieces_nonempty(rel, '/');
    assert forall|i: int| 0 <= i < path.len() implies (#[trigger] path[i]).len() > 0 by {
        assert(writable_name(path[i]));
    }
    lemma_path_from_root(path);
    lemma_joined_pieces(rel, '/');
}

/// The tree of separate paths holds exactly the given files.
proof fn lemma_grown_bag(entries: Seq<FileEntryView>, n: nat)
    requires
        n <= entries.len(),
        separate_paths(entries),
        forall|i: int| 0 <= i < entries.len() ==> writable_path((#[trigger] entries[i]).rel),
    ensures
        grown_tree(entries, n) is Ok,
        no_empty_dirs(grown_tree(entries, n)->Ok_0),
        ({
            let d = grown_tree(entries, n)->Ok_0;
            bag(d, d.len(), Seq::empty()) == entries.take(n as int).to_multiset()
        }),
    decreases n,
{
    broadcast use vstd::seq_lib::group_to_multiset_ensures;

    if n == 0 {
        let d = grown_tree(entries, n)->Ok_0;
        assert(entries.take(0) =~= Seq::<FileEntryView>::empty());
        assert(bag(d, d.len(), Seq::empty()) =~= entries.take(0).to_multiset());
    } else {
        let m = (n - 1) as nat;
        lemma_grown_bag(entries, m);
        law_grown_tree_has_its_files(entries, m);
        let d = grown_tree(entries, m)->Ok_0;
        let e = entries[n - 1];
        let path = pieces(e.rel, '/');
        crate::text::lemma_pieces_nonempty(e.rel, '/');
        assert forall|q: Seq<Seq<char>>| #[trigger] looked_up(d, q) is Some implies
            !path.is_prefix_of(q) && !q.is_prefix_of(path) by {
            let i = choose|i: int|
                0 <= i < m && pieces((#[trigger] entries[i]).rel, '/') == q;
            assert(entries[n - 1] == e);
            assert(!pieces(entries[i].rel, '/').is_prefix_of(pieces(entries[n - 1].rel, '/')));
            assert(!pieces(entries[n - 1].rel, '/').is_prefix_of(pieces(entries[i].rel, '/')));
        }
        lemma_vacant(d, path);
        lemma_planted_bag(d, path, e.id, e.executable, Seq::empty());
        lemma_planted_nonempty(d, path, e.id, e.executable);
        lemma_writable_path_from_root(e.rel);
        let seen = entries.take(n as int);
        assert(seen =~= entries.take(m as int).push(e));
        let out = grown_tree(entries, n)->Ok_0;
        assert(e == FileEntryView {
            rel: path_from(Seq::empty(), path),
            id: e.id,
            executable: e.executable,
        });
        assert(bag(out, out.len(), Seq::empty()) == entries.take(m as int).to_multiset().insert(e));
    }
}

/// No two files have the same path.
pub open spec fn distinct_paths(files: Seq<FileEntryView>) -> bool {
    forall|i: int, j: int|
        0 <= i < files.len() && 0 <= j < files.len() && (#[trigger] files[i]).rel == (
        #[trigger] files[j]).rel ==> i == j
}

/// An ordered list is determined by its items, where their paths are distinct.
proof fn lemma_order_is_unique(x: Seq<FileEntryView>, y: Seq<FileEntryView>)
    requires
        in_order(x, |e: FileEntryView| e.rel),
        in_order(y, |e: FileEntryView| e.rel),
        x.to_multiset() == y.to_multiset(),
        distinct_paths(x),
    ensures
        x == y,
{
    broadcast use vstd::seq_lib::group_to_multiset_ensures;

    let key = |e: FileEntryView| e.rel;
    assert(x.len() == x.to_multiset().len());
    assert(y.len() == y.to_multiset().len());
    assert forall|e: FileEntryView| #[trigger] x.contains(e) <==> y.contains(e) by {
        if x.contains(e) {
            assert(x.to_multiset().count(e) > 0);
            assert(y.to_multiset().count(e) > 0);
        }
        if y.contains(e) {
            assert(y.to_multiset().count(e) > 0);
            assert(x.to_multiset().count(e) > 0);
        }
    }
    assert(x.no_duplicates()) by {
        assert forall|i: int, j: int| 0 <= i < x.len() && 0 <= j < x.len() && i != j implies x[i]
            != x[j] by {
            if x[i] == x[j] {
                assert(x[i].rel == x[j].rel);
            }
        }
    }
    x.lemma_multiset_has_no_duplicates();
    y.lemma_multiset_has_no_duplicates_conv();
    assert(distinct_keys(x, key)) by {
        assert forall|i: int, j: int|
            0 <= i < x.len() && 0 <= j < x.len() && key(#[trigger] x[i]) == key(
                #[trigger] x[j],
            ) implies i == j by {
            assert(x[i].rel == x[j].rel);
        }
    }
    assert(distinct_keys(y, key)) by {
        assert forall|i: int, j: int|
            0 <= i < y.len() && 0 <= j < y.len() && key(#[trigger] y[i]) == key(
                #[trigger] y[j],
            ) implies i == j by {
            assert(y.contains(y[i]) && y.contains(y[j]));
            assert(x.contains(y[i]) && x.contains(y[j]));
            let a = choose|a: int| 0 <= a < x.len() && x[a] == y[i];
            let b = choose|b: int| 0 <= b < x.len() && x[b] == y[j];
            assert(x[a].rel == x[b].rel);
            assert(y[i] == y[j]);
        }
    }
    lemma_one_order(x, y, key);
}

/// Distinct paths stay distinct when a list is sorted.
pub(crate) proof fn lemma_sorted_distinct(files: Seq<FileEntryView>)
    requires
        distinct_paths(files),
    ensures
        distinct_paths(by_path(files)),
{
    broadcast use vstd::seq_lib::group_to_multiset_ensures;

    let key = |e: FileEntryView| e.rel;
    let out = by_path(files);
    law_sorted_by(files, key);
    assert(files.no_duplicates()) by {
        assert forall|i: int, j: int|
            0 <= i < files.len() && 0 <= j < files.len() && i != j implies files[i] != files[j] by {
            if files[i] == files[j] {
                assert(files[i].rel == files[j].rel);
            }
        }
    }
    files.lemma_multiset_has_no_duplicates();
    out.lemma_multiset_has_no_duplicates_conv();
    assert forall|i: int, j: int|
        0 <= i < out.len() && 0 <= j < out.len() && (#[trigger] out[i]).rel == (
        #[trigger] out[j]).rel implies i == j by {
        assert(out.contains(out[i]) && out.contains(out[j]));
        let a = choose|a: int| 0 <= a < files.len() && files[a] == out[i];
        let b = choose|b: int| 0 <= b < files.len() && files[b] == out[j];
        assert(files[a].rel == files[b].rel);
        assert(out[i] == out[j]);
    }
}

/// Separate paths are distinct.
pub(crate) proof fn lemma_separate_is_distinct(entries: Seq<FileEntryView>)
    requires
        separate_paths(entries),
    ensures
        distinct_paths(entries),
{
    assert forall|i: int, j: int|
        0 <= i < entries.len() && 0 <= j < entries.len() && (#[trigger] entries[i]).rel == (
        #[trigger] entries[j]).rel implies i == j by {
        if i != j {
            let p = pieces(entries[i].rel, '/');
            assert(p =~= p.subrange(0, p.len() as int));
            assert(p.is_prefix_of(pieces(entries[j].rel, '/')));
        }
    }
}

/// In a store that holds a working tree's objects, the files of that working
/// tree's snapshot are its files, in the order of their paths.
pub proof fn law_work_tree_is_listed(objects: Map<Seq<char>, Seq<u8>>, work: Seq<LoadedView>)
    requires
        recordable(work),
        work_held(objects, work),
        objects.dom().finite(),
    ensures
        snapshot_files(objects, tree_id(work_tree(work))) == Ok::<Seq<FileEntryView>, Seq<char>>(
            by_path(work_entries(work)),
        ),
{
    let entries = work_entries(work);
    let d = work_tree(work);
    let key = |e: FileEntryView| e.rel;
    assert forall|i: int| 0 <= i < entries.len() implies writable_path(
        (#[trigger] entries[i]).rel,
    ) && well_formed_id(entries[i].id) by {
        assert(writable_path(work[i].rel));
        crate::object::law_object_ids_are_well_formed(Kind::Blob, work[i].data->Ok_0);
    }
    lemma_grown_bag(entries, entries.len());
    lemma_grown_writable(entries, entries.len());
    law_held_directory_lists_fully(objects, d);
    let list = listing(d, d.len(), Seq::empty());
    lemma_listing_bag(d, d.len(), Seq::empty());
    assert(entries.take(entries.len() as int) =~= entries);
    assert(list.to_multiset() == entries.to_multiset());
    law_sorted_by(list, key);
    law_sorted_by(entries, key);
    lemma_separate_is_distinct(entries);
    lemma_sorted_distinct(entries);
    lemma_order_is_unique(by_path(entries), by_path(list));
}

/// The files of a snapshot that was taken of a working tree are the files of
/// that working tree, in the order of their paths.
pub proof fn law_snapshot_lists_the_work_tree(
    s: StoreView,
    work: Seq<LoadedView>,
    label: Seq<char>,
    agent: Seq<char>,
    wanted: Option<u64>,
    time: i64,
)
    requires
        recordable(work),
        taken(s, work, label, agent, wanted, time).1 is Ok,
        work_held(taken(s, work, label, agent, wanted, time).0.objects, work),
        taken(s, work, label, agent, wanted, time).0.objects.dom().finite(),
    ensures
        ({
            let (after, r) = taken(s, work, label, agent, wanted, time);
            snapshot_files(after.objects, r->Ok_0.tree) == Ok::<Seq<FileEntryView>, Seq<char>>(
                by_path(work_entries(work)),
            )
        }),
{
    let (after, r) = taken(s, work, label, agent, wanted, time);
    lemma_blobs_stored(s.objects, work);
    assert(r->Ok_0.tree == tree_id(work_tree(work)));
    law_work_tree_is_listed(after.objects, work);
}

proof fn lemma_entry_of_work(work: Seq<LoadedView>, i: int)
    requires
        recordable(work),
        0 <= i < work.len(),
    ensures
        entry_for(by_path(work_entries(work)), work[i].rel) == Some(work_entries(work)[i]),
{
    let entries = work_entries(work);
    let files = by_path(entries);
    let rel = work[i].rel;
    law_sorted_by(entries, |e: FileEntryView| e.rel);
    lemma_last_index(files, rel);
    assert(entries.contains(entries[i]));
    assert(files.contains(entries[i]));
    let k = choose|k: int| 0 <= k < files.len() && files[k] == entries[i];
    assert(files[k].rel == rel);
    let p = last_index(files, rel);
    assert(p >= k);
    assert(files.contains(files[p]));
    let j = choose|j: int| 0 <= j < entries.len() && entries[j] == files[p];
    lemma_separate_is_distinct(entries);
    assert(entries[j].rel == entries[i].rel);
}

proof fn lemma_compared_clean(work: Seq<LoadedView>, n: nat)
    requires
        recordable(work),
        n <= work.len(),
    ensures
        compared(by_path(work_entries(work)), work, n) == Ok::<ChangesView, Seq<char>>(
            no_difference(),
        ),
    decreases n,
{
    if n > 0 {
        lemma_compared_clean(work, (n - 1) as nat);
        lemma_entry_of_work(work, n - 1);
        assert(work[n - 1].data is Ok);
    }
}

proof fn lemma_none_missing(work: Seq<LoadedView>, n: nat)
    requires
        n <= by_path(work_entries(work)).len(),
    ensures
        missing(by_path(work_entries(work)), work, n) == Seq::<Seq<char>>::empty(),
    decreases n,
{
    let entries = work_entries(work);
    let files = by_path(entries);
    if n > 0 {
        lemma_none_missing(work, (n - 1) as nat);
        law_sorted_by(entries, |e: FileEntryView| e.rel);
        assert(files.contains(files[n - 1]));
        let j = choose|j: int| 0 <= j < entries.len() && entries[j] == files[n - 1];
        assert(work[j].rel == files[n - 1].rel);
        assert(has_path(work, files[n - 1].rel));
    }
}

/// A working tree that was just recorded has no changes against its snapshot.
pub proof fn law_recorded_tree_is_clean(
    s: StoreView,
    work: Seq<LoadedView>,
    label: Seq<char>,
    agent: Seq<char>,
    wanted: Option<u64>,
    time: i64,
)
    requires
        recordable(work),
        taken(s, work, label, agent, wanted, time).1 is Ok,
        work_held(taken(s, work, label, agent, wanted, time).0.objects, work),
        taken(s, work, label, agent, wanted, time).0.objects.dom().finite(),
    ensures
        ({
            let (after, r) = taken(s, work, label, agent, wanted, time);
            tree_changes(after, work, r->Ok_0.tree) == Ok::<ChangesView, Seq<char>>(
                no_difference(),
            )
        }),
{
    law_snapshot_lists_the_work_tree(s, work, label, agent, wanted, time);
    lemma_compared_clean(work, work.len());
    lemma_none_missing(work, by_path(work_entries(work)).len());
}

} // verus!
