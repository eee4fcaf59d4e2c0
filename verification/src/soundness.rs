//! A sound store: one on which an audit finds nothing. A fresh store is sound,
//! and taking a snapshot keeps it so.

use vstd::prelude::*;
use vstd::utf8::encode_utf8;

use crate::audit::{
    known, law_clean_report_means_sound_store, listed, object_sound, record_sound, ref_problems,
    rehashed, snapshot_sound, store_report, tree_complete, turn_sound, FanView, NamedView,
};
use crate::listing::{lemma_chain, levels_below};
use crate::object::{
    decoded, encoded, fetched, law_encoded_object_reads_back, law_object_ids_are_well_formed,
    object_id, parsed_snapshot, parsed_tree, snapshot_text, stored, well_formed_id, Kind, SnapshotView,
};
use crate::readback::{
    before_record, dir_held, extends, held, law_history_is_append_only,
    law_taken_snapshot_is_latest, lemma_blobs_stored, lemma_dir_reads_back, lemma_grown_writable,
    lemma_insert_index, lemma_modes, lemma_subtrees_extend, lemma_taken_shape, lemma_tree_entries,
    lemma_trimmed_id, recordable, tree_entry, work_entries, work_held, work_tree, writable_dir,
    writable_path,
};
use crate::sha1::sha1_hex;
use crate::snapshot::{
    blobs_stored, entries_taken, grown_tree, next_number, taken, FileEntryView, LoadedView,
};
use crate::store::{
    law_later_turn_is_free, law_recorded_turn_is_latest, law_turns_are_ascending, StoreView,
};
use crate::text::pieces;
use crate::tree::{
    insert_index, lemma_name_index, name_index, node_at, planted, subtrees_stored, tree_entries,
    tree_id, tree_payload, tree_stored, with_name, EntryView, NodeView,
};

verus! {

/// Every object is stored under the digest of its bytes and has a well-formed
/// header.
pub open spec fn objects_sound(objects: Map<Seq<char>, Seq<u8>>) -> bool {
    forall|id: Seq<char>| #[trigger]
        objects.contains_key(id) ==> sha1_hex(objects[id]) == id && decoded(id, objects[id]) is Ok
}

/// The kind of each object.
pub open spec fn kinds_of(objects: Map<Seq<char>, Seq<u8>>) -> Map<Seq<char>, Kind> {
    Map::new(
        |id: Seq<char>| objects.contains_key(id),
        |id: Seq<char>| decoded(id, objects[id])->Ok_0.0,
    )
}

/// Every object is what its id says, every turn resolves to a snapshot, and
/// every snapshot's tree and parent are there.
pub open spec fn store_sound(s: StoreView) -> bool {
    &&& objects_sound(s.objects)
    &&& forall|i: int|
        0 <= i < s.turns().len() ==> turn_sound(s, kinds_of(s.objects), #[trigger] s.turns()[i])
    &&& forall|id: Seq<char>| #[trigger]
        known(kinds_of(s.objects), id, Kind::Snapshot) ==> snapshot_sound(
            s.objects,
            kinds_of(s.objects),
            id,
        )
}

/// No object is a snapshot that was none before.
spec fn same_snapshots(old: Map<Seq<char>, Seq<u8>>, new: Map<Seq<char>, Seq<u8>>) -> bool {
    forall|id: Seq<char>| #[trigger]
        known(kinds_of(new), id, Kind::Snapshot) ==> known(kinds_of(old), id, Kind::Snapshot)
}

/// Every object fits into memory.
pub open spec fn in_memory(objects: Map<Seq<char>, Seq<u8>>) -> bool {
    forall|id: Seq<char>| #[trigger]
        objects.contains_key(id) ==> objects[id].len() <= usize::MAX
}

/// Every object is stored in the form in which it is written. (A length with
/// leading zeros or a plus sign is read as well.)
pub open spec fn as_written(objects: Map<Seq<char>, Seq<u8>>) -> bool {
    forall|id: Seq<char>| #[trigger]
        objects.contains_key(id) && fetched(objects, id) is Ok ==> objects[id] == encoded(
            fetched(objects, id)->Ok_0.0,
            fetched(objects, id)->Ok_0.1,
        )
}

/// The object files are the objects of the table.
pub open spec fn lists_table(files: Seq<NamedView>, objects: Map<Seq<char>, Seq<u8>>) -> bool {
    &&& forall|i: int|
        0 <= i < files.len() ==> objects.contains_key((#[trigger] files[i]).id) && files[i].data
            == Ok::<Seq<u8>, Seq<char>>(objects[files[i].id])
    &&& forall|id: Seq<char>| #[trigger]
        objects.contains_key(id) ==> exists|i: int| 0 <= i < files.len() && (#[trigger] files[i]).id == id
}

proof fn lemma_rehashed_kinds(files: Seq<NamedView>, objects: Map<Seq<char>, Seq<u8>>, n: nat)
    requires
        n <= files.len(),
        lists_table(files, objects),
        objects_sound(objects),
    ensures
        forall|id: Seq<char>| #[trigger]
            rehashed(files, n).kinds.contains_key(id) <==> exists|i: int|
                0 <= i < n && (#[trigger] files[i]).id == id,
        forall|id: Seq<char>| #[trigger]
            rehashed(files, n).kinds.contains_key(id) ==> rehashed(files, n).kinds[id]
                == kinds_of(objects)[id],
    decreases n,
{
    if n > 0 {
        let m = (n - 1) as nat;
        lemma_rehashed_kinds(files, objects, m);
        let f = files[m as int];
        assert(objects.contains_key(f.id));
        let before = rehashed(files, m).kinds;
        let after = rehashed(files, n).kinds;
        assert(after == before.insert(f.id, kinds_of(objects)[f.id]));
        assert forall|id: Seq<char>| #[trigger] after.contains_key(id) <==> exists|i: int|
            0 <= i < n && (#[trigger] files[i]).id == id by {
            if id == f.id {
                assert(files[m as int].id == id);
            } else if exists|i: int| 0 <= i < n && (#[trigger] files[i]).id == id {
                let i = choose|i: int| 0 <= i < n && (#[trigger] files[i]).id == id;
                assert(i < m);
                assert(before.contains_key(id));
            }
        }
    }
}

proof fn lemma_refs_checked(s: StoreView, kinds: Map<Seq<char>, Kind>, turns: Seq<u64>, n: nat)
    requires
        n <= turns.len(),
        forall|i: int| 0 <= i < turns.len() ==> s.turn_id(#[trigger] turns[i]) is Ok,
    ensures
        ref_problems(s, kinds, turns, n) is Ok,
    decreases n,
{
    if n > 0 {
        lemma_refs_checked(s, kinds, turns, (n - 1) as nat);
        assert(s.turn_id(turns[n - 1]) is Ok);
    }
}

/// An audit of a store, with all its object files at hand, finds nothing in a
/// sound store.
pub proof fn law_sound_store_passes_the_audit(s: StoreView, fans: Seq<FanView>)
    requires
        store_sound(s),
        lists_table(listed(fans), s.objects),
    ensures
        store_report(s, fans) matches Ok(report) && report.problems.len() == 0,
{
    let files = listed(fans);
    let found = rehashed(files, files.len());
    let kinds = kinds_of(s.objects);
    lemma_rehashed_kinds(files, s.objects, files.len());
    assert(found.kinds =~= kinds);
    assert forall|i: int| 0 <= i < s.turns().len() implies s.turn_id(#[trigger] s.turns()[i]) is Ok by {
        assert(turn_sound(s, kinds, s.turns()[i]));
    }
    lemma_refs_checked(s, found.kinds, s.turns(), s.turns().len());
    law_clean_report_means_sound_store(s, fans);
    assert forall|i: int| 0 <= i < files.len() implies object_sound(#[trigger] files[i]) by {
        assert(s.objects.contains_key(files[i].id));
    }
}

/// What extends an extension extends what came before.
proof fn lemma_extends_on(
    a: Map<Seq<char>, Seq<u8>>,
    b: Map<Seq<char>, Seq<u8>>,
    c: Map<Seq<char>, Seq<u8>>,
)
    requires
        extends(a, b),
        extends(b, c),
    ensures
        extends(a, c),
{
    assert forall|id: Seq<char>| #[trigger] a.contains_key(id) implies c.contains_key(id) && c[id]
        == a[id] by {
        assert(b.contains_key(id));
    }
}

/// Storing keeps objects sound, where what is stored fits into memory.
proof fn lemma_stored_sound(
    objects: Map<Seq<char>, Seq<u8>>,
    kind: Kind,
    payload: Seq<u8>,
    whole: Map<Seq<char>, Seq<u8>>,
)
    requires
        objects_sound(objects),
        extends(stored(objects, kind, payload), whole),
        in_memory(whole),
    ensures
        objects_sound(stored(objects, kind, payload)),
        kind != Kind::Snapshot ==> same_snapshots(objects, stored(objects, kind, payload)),
{
    let id = object_id(kind, payload);
    let after = stored(objects, kind, payload);
    if !objects.contains_key(id) {
        assert(after.contains_key(id));
        assert(whole.contains_key(id) && whole[id] == encoded(kind, payload));
        assert(payload.len() <= encoded(kind, payload).len());
        law_encoded_object_reads_back(id, kind, payload);
        assert(kinds_of(after)[id] == kind);
        assert forall|other: Seq<char>| #[trigger]
            known(kinds_of(after), other, Kind::Snapshot) && kind != Kind::Snapshot implies known(
            kinds_of(objects),
            other,
            Kind::Snapshot,
        ) by {
            assert(other != id);
            assert(kinds_of(objects)[other] == kinds_of(after)[other]);
        }
    }
}

proof fn lemma_blobs_sound(
    objects: Map<Seq<char>, Seq<u8>>,
    work: Seq<LoadedView>,
    whole: Map<Seq<char>, Seq<u8>>,
)
    requires
        objects_sound(objects),
        extends(blobs_stored(objects, work).0, whole),
        in_memory(whole),
    ensures
        objects_sound(blobs_stored(objects, work).0),
        same_snapshots(objects, blobs_stored(objects, work).0),
    decreases work.len(),
{
    if work.len() > 0 {
        let before = blobs_stored(objects, work.drop_last()).0;
        assert(extends(before, blobs_stored(objects, work).0));
        lemma_extends_on(before, blobs_stored(objects, work).0, whole);
        lemma_blobs_sound(objects, work.drop_last(), whole);
        if blobs_stored(objects, work.drop_last()).1 is Ok && work.last().data is Ok {
            lemma_stored_sound(before, Kind::Blob, work.last().data->Ok_0, whole);
        }
    }
}

proof fn lemma_subtrees_sound(
    objects: Map<Seq<char>, Seq<u8>>,
    d: Seq<EntryView>,
    n: nat,
    whole: Map<Seq<char>, Seq<u8>>,
)
    requires
        n <= d.len(),
        objects_sound(objects),
        extends(subtrees_stored(objects, d, n), whole),
        in_memory(whole),
    ensures
        objects_sound(subtrees_stored(objects, d, n)),
        same_snapshots(objects, subtrees_stored(objects, d, n)),
    decreases d, n,
{
    if n > 0 {
        let m = (n - 1) as nat;
        let before = subtrees_stored(objects, d, m);
        let after = subtrees_stored(objects, d, n);
        match d[n - 1].node {
            NodeView::File { .. } => {
                lemma_subtrees_sound(objects, d, m, whole);
            },
            NodeView::Dir(sub) => {
                let mid = subtrees_stored(before, sub, sub.len());
                lemma_subtrees_extend(before, sub, sub.len());
                assert(extends(mid, after));
                lemma_extends_on(mid, after, whole);
                lemma_extends_on(before, mid, whole);
                lemma_subtrees_sound(objects, d, m, whole);
                lemma_subtrees_sound(before, sub, sub.len(), whole);
                lemma_stored_sound(mid, Kind::Tree, tree_payload(sub), whole);
            },
        }
    }
}

/// The objects that taking a snapshot stores are sound, whether or not a turn
/// is recorded; and none but the record is a snapshot.
proof fn lemma_taken_objects_sound(
    s: StoreView,
    work: Seq<LoadedView>,
    label: Seq<char>,
    agent: Seq<char>,
    wanted: Option<u64>,
    time: i64,
)
    requires
        wanted is None ==> s.latest() != Some(u64::MAX),
        objects_sound(s.objects),
        in_memory(taken(s, work, label, agent, wanted, time).0.objects),
    ensures
        objects_sound(taken(s, work, label, agent, wanted, time).0.objects),
        ({
            let (after, r) = taken(s, work, label, agent, wanted, time);
            forall|id: Seq<char>| #[trigger]
                known(kinds_of(after.objects), id, Kind::Snapshot) ==> known(
                    kinds_of(s.objects),
                    id,
                    Kind::Snapshot,
                ) || (r is Ok && r->Ok_0.id == id)
        }),
{
    let (state, outcome) = taken(s, work, label, agent, wanted, time);
    let after = state.objects;
    let (blobs, b) = blobs_stored(s.objects, work);
    if b is Err {
        lemma_blobs_sound(s.objects, work, after);
    } else {
        let entries = b->Ok_0;
        match grown_tree(entries, entries.len()) {
            Err(_) => {
                lemma_blobs_sound(s.objects, work, after);
            },
            Ok(d) => {
                let mid = subtrees_stored(blobs, d, d.len());
                let full = tree_stored(blobs, d);
                lemma_subtrees_extend(blobs, d, d.len());
                assert(extends(mid, full));
                assert(extends(full, after));
                lemma_extends_on(mid, full, after);
                lemma_extends_on(blobs, mid, after);
                lemma_blobs_sound(s.objects, work, after);
                lemma_subtrees_sound(blobs, d, d.len(), after);
                lemma_stored_sound(mid, Kind::Tree, tree_payload(d), after);
                assert(same_snapshots(s.objects, full));
                if outcome is Ok {
                    let snap = outcome->Ok_0;
                    let record = SnapshotView { id: Seq::empty(), ..snap };
                    let payload = encode_utf8(snapshot_text(record));
                    lemma_taken_shape(s, work, label, agent, wanted, time);
                    assert(before_record(s, work).objects == full);
                    assert(after == stored(full, Kind::Snapshot, payload));
                    lemma_stored_sound(full, Kind::Snapshot, payload, after);
                    assert forall|id: Seq<char>| #[trigger]
                        known(kinds_of(after), id, Kind::Snapshot) implies known(
                        kinds_of(s.objects),
                        id,
                        Kind::Snapshot,
                    ) || snap.id == id by {
                        if id != snap.id {
                            assert(known(kinds_of(full), id, Kind::Snapshot));
                        }
                    }
                } else {
                    let s1 = StoreView { objects: blobs, ..s };
                    assert(s1.latest() == s.latest());
                    lemma_refused_stores_no_record(s1, entries, d, label, agent, wanted, time);
                    assert(after == full);
                }
            },
        }
    }
}

/// Where taking a snapshot fails, no record was stored.
proof fn lemma_refused_stores_no_record(
    s: StoreView,
    entries: Seq<FileEntryView>,
    d: Seq<EntryView>,
    label: Seq<char>,
    agent: Seq<char>,
    wanted: Option<u64>,
    time: i64,
)
    requires
        wanted is None ==> s.latest() != Some(u64::MAX),
        grown_tree(entries, entries.len()) == Ok::<Seq<EntryView>, Seq<char>>(d),
        entries_taken(s, entries, label, agent, wanted, time).1 is Err,
    ensures
        entries_taken(s, entries, label, agent, wanted, time).0.objects == tree_stored(
            s.objects,
            d,
        ),
{
    let after = entries_taken(s, entries, label, agent, wanted, time).0;
    let s2 = StoreView { objects: tree_stored(s.objects, d), ..s };
    assert(s2.latest() == s.latest());
    if let Ok(turn) = next_number(s2.latest(), wanted) {
        assert(after.latest() == s.latest());
        law_later_turn_is_free(after, turn);
    }
}

pub(crate) proof fn lemma_known_extends(
    old: Map<Seq<char>, Seq<u8>>,
    new: Map<Seq<char>, Seq<u8>>,
    id: Seq<char>,
    kind: Kind,
)
    requires
        extends(old, new),
        known(kinds_of(old), id, kind),
    ensures
        known(kinds_of(new), id, kind),
        fetched(new, id) == fetched(old, id),
{
    assert(old.contains_key(id));
}

/// A complete tree stays complete as objects are added.
proof fn lemma_complete_extends(
    old: Map<Seq<char>, Seq<u8>>,
    new: Map<Seq<char>, Seq<u8>>,
    tree: Seq<char>,
    depth: nat,
    deeper: nat,
)
    requires
        extends(old, new),
        tree_complete(old, kinds_of(old), tree, depth),
        depth <= deeper,
    ensures
        tree_complete(new, kinds_of(new), tree, deeper),
    decreases depth,
{
    lemma_known_extends(old, new, tree, Kind::Tree);
    let entries = parsed_tree(fetched(old, tree)->Ok_0.1)->Ok_0;
    assert forall|i: int| 0 <= i < entries.len() implies {
        let e = #[trigger] entries[i];
        if e.is_dir() {
            tree_complete(new, kinds_of(new), e.id, (deeper - 1) as nat)
        } else {
            known(kinds_of(new), e.id, Kind::Blob)
        }
    } by {
        let e = entries[i];
        if e.is_dir() {
            lemma_complete_extends(old, new, e.id, (depth - 1) as nat, (deeper - 1) as nat);
        } else {
            lemma_known_extends(old, new, e.id, Kind::Blob);
        }
    }
}

/// A sound record stays sound as objects are added.
proof fn lemma_record_extends(
    old: Map<Seq<char>, Seq<u8>>,
    new: Map<Seq<char>, Seq<u8>>,
    snap: SnapshotView,
)
    requires
        record_sound(old, kinds_of(old), snap),
        extends(old, new),
        new.dom().finite(),
    ensures
        record_sound(new, kinds_of(new), snap),
{
    if let Some(p) = snap.parent {
        lemma_known_extends(old, new, p, Kind::Snapshot);
    }
    assert(old.dom().subset_of(new.dom())) by {
        assert forall|id: Seq<char>| old.dom().contains(id) implies new.dom().contains(id) by {
            assert(old.contains_key(id));
        }
    }
    vstd::set_lib::lemma_len_subset(old.dom(), new.dom());
    lemma_complete_extends(old, new, snap.tree, old.len(), new.len());
}

/// A sound turn stays sound as objects and other turns are added.
proof fn lemma_turn_extends(s: StoreView, t: StoreView, turn: u64)
    requires
        turn_sound(s, kinds_of(s.objects), turn),
        extends(s.objects, t.objects),
        t.objects.dom().finite(),
        t.turn_id(turn) == s.turn_id(turn),
    ensures
        turn_sound(t, kinds_of(t.objects), turn),
{
    lemma_known_extends(s.objects, t.objects, s.turn_id(turn)->Ok_0, Kind::Snapshot);
    lemma_record_extends(s.objects, t.objects, s.snapshot(turn)->Ok_0);
}

/// Every file in a directory and below it is a known blob.
spec fn blobs_known(d: Seq<EntryView>, kinds: Map<Seq<char>, Kind>) -> bool
    decreases d,
{
    forall|i: int|
        0 <= i < d.len() ==> match (#[trigger] d[i]).node {
            NodeView::File { id, .. } => known(kinds, id, Kind::Blob),
            NodeView::Dir(sub) => blobs_known(sub, kinds),
        }
}

proof fn lemma_with_name_known(
    d: Seq<EntryView>,
    name: Seq<char>,
    node: NodeView,
    kinds: Map<Seq<char>, Kind>,
)
    requires
        blobs_known(d, kinds),
        match node {
            NodeView::File { id, .. } => known(kinds, id, Kind::Blob),
            NodeView::Dir(sub) => blobs_known(sub, kinds),
        },
    ensures
        blobs_known(with_name(d, name, node), kinds),
{
    let out = with_name(d, name, node);
    let k = insert_index(d, name);
    lemma_name_index(d, name);
    lemma_insert_index(d, name);
    assert forall|i: int| 0 <= i < out.len() implies match (#[trigger] out[i]).node {
        NodeView::File { id, .. } => known(kinds, id, Kind::Blob),
        NodeView::Dir(sub) => blobs_known(sub, kinds),
    } by {
        if name_index(d, name) < d.len() {
            if i != name_index(d, name) {
                assert(out[i] == d[i]);
            }
        } else if i < k {
            assert(out[i] == d[i]);
        } else if i > k {
            assert(out[i] == d[i - 1]);
        }
    }
}

proof fn lemma_planted_known(
    d: Seq<EntryView>,
    path: Seq<Seq<char>>,
    id: Seq<char>,
    executable: bool,
    kinds: Map<Seq<char>, Kind>,
)
    requires
        path.len() > 0,
        blobs_known(d, kinds),
        known(kinds, id, Kind::Blob),
        planted(d, path, id, executable) is Ok,
    ensures
        blobs_known(planted(d, path, id, executable)->Ok_0, kinds),
    decreases path.len(),
{
    let name = path[0];
    if path.len() == 1 {
        lemma_with_name_known(d, name, NodeView::File { id, executable }, kinds);
    } else {
        let rest = path.drop_first();
        let inner = match node_at(d, name) {
            Some(NodeView::Dir(sub)) => sub,
            _ => Seq::empty(),
        };
        lemma_name_index(d, name);
        assert(blobs_known(inner, kinds));
        lemma_planted_known(inner, rest, id, executable, kinds);
        let sub = planted(inner, rest, id, executable)->Ok_0;
        lemma_with_name_known(d, name, NodeView::Dir(sub), kinds);
    }
}

proof fn lemma_grown_known(entries: Seq<FileEntryView>, n: nat, kinds: Map<Seq<char>, Kind>)
    requires
        n <= entries.len(),
        grown_tree(entries, n) is Ok,
        forall|i: int|
            0 <= i < entries.len() ==> known(kinds, (#[trigger] entries[i]).id, Kind::Blob),
    ensures
        blobs_known(grown_tree(entries, n)->Ok_0, kinds),
    decreases n,
{
    if n > 0 {
        lemma_grown_known(entries, (n - 1) as nat, kinds);
        let e = entries[n - 1];
        crate::text::lemma_pieces_nonempty(e.rel, '/');
        lemma_planted_known(
            grown_tree(entries, (n - 1) as nat)->Ok_0,
            pieces(e.rel, '/'),
            e.id,
            e.executable,
            kinds,
        );
    }
}

proof fn lemma_held_known(objects: Map<Seq<char>, Seq<u8>>, kind: Kind, payload: Seq<u8>)
    requires
        held(objects, kind, payload),
    ensures
        known(kinds_of(objects), object_id(kind, payload), kind),
{
    law_encoded_object_reads_back(object_id(kind, payload), kind, payload);
}

proof fn lemma_level_of(d: Seq<EntryView>, n: nat, i: int)
    requires
        0 <= i < n <= d.len(),
    ensures
        d[i].node matches NodeView::Dir(sub) ==> levels_below(d, n) >= 1 + levels_below(
            sub,
            sub.len(),
        ),
    decreases n,
{
    if i < n - 1 {
        lemma_level_of(d, (n - 1) as nat, i);
    }
}

/// A held directory whose files are known blobs is a complete tree.
proof fn lemma_held_complete(objects: Map<Seq<char>, Seq<u8>>, d: Seq<EntryView>, depth: nat)
    requires
        dir_held(objects, d),
        writable_dir(d),
        blobs_known(d, kinds_of(objects)),
        depth >= 1 + levels_below(d, d.len()),
    ensures
        tree_complete(objects, kinds_of(objects), tree_id(d), depth),
    decreases d,
{
    lemma_dir_reads_back(objects, d);
    lemma_tree_entries(d, d.len());
    lemma_held_known(objects, Kind::Tree, tree_payload(d));
    lemma_modes();
    let entries = tree_entries(d, d.len());
    assert forall|i: int| 0 <= i < entries.len() implies {
        let e = #[trigger] entries[i];
        if e.is_dir() {
            tree_complete(objects, kinds_of(objects), e.id, (depth - 1) as nat)
        } else {
            known(kinds_of(objects), e.id, Kind::Blob)
        }
    } by {
        assert(entries[i] == tree_entry(d[i]));
        if let NodeView::Dir(sub) = d[i].node {
            lemma_level_of(d, d.len(), i);
            lemma_held_complete(objects, sub, (depth - 1) as nat);
        }
    }
}

/// A store with nothing in it is sound, and its objects are as written.
pub proof fn law_fresh_store_is_sound(s: StoreView)
    requires
        s.objects == Map::<Seq<char>, Seq<u8>>::empty(),
        s.refs.len() == 0,
    ensures
        store_sound(s),
        as_written(s.objects),
{
    assert(s.turns().len() == 0);
}

/// The turn of a snapshot that was taken is sound.
proof fn lemma_taken_turn_sound(
    s: StoreView,
    work: Seq<LoadedView>,
    label: Seq<char>,
    agent: Seq<char>,
    wanted: Option<u64>,
    time: i64,
)
    requires
        wanted is None ==> s.latest() != Some(u64::MAX),
        store_sound(s),
        recordable(work),
        taken(s, work, label, agent, wanted, time).1 matches Ok(snap) && held(
            taken(s, work, label, agent, wanted, time).0.objects,
            Kind::Snapshot,
            encode_utf8(snapshot_text(snap)),
        ),
        work_held(taken(s, work, label, agent, wanted, time).0.objects, work),
        taken(s, work, label, agent, wanted, time).0.objects.dom().finite(),
    ensures
        ({
            let (after, r) = taken(s, work, label, agent, wanted, time);
            turn_sound(after, kinds_of(after.objects), r->Ok_0.turn)
        }),
{
    let (after, r) = taken(s, work, label, agent, wanted, time);
    let snap = r->Ok_0;
    let kinds = kinds_of(after.objects);
    let d = work_tree(work);
    let entries = work_entries(work);
    law_taken_snapshot_is_latest(s, work, label, agent, wanted, time);
    lemma_blobs_stored(s.objects, work);
    assert(snap.tree == tree_id(d));
    assert forall|i: int| 0 <= i < entries.len() implies known(
        kinds,
        (#[trigger] entries[i]).id,
        Kind::Blob,
    ) && writable_path(entries[i].rel) && well_formed_id(entries[i].id) by {
        assert(held(after.objects, Kind::Blob, work[i].data->Ok_0));
        assert(writable_path(work[i].rel));
        lemma_held_known(after.objects, Kind::Blob, work[i].data->Ok_0);
        law_object_ids_are_well_formed(Kind::Blob, work[i].data->Ok_0);
    }
    lemma_grown_known(entries, entries.len(), kinds);
    lemma_grown_writable(entries, entries.len());
    let ids = lemma_chain(after.objects, d);
    vstd::set_lib::lemma_len_subset(ids, after.objects.dom());
    lemma_held_complete(after.objects, d, after.objects.len());
    let s2 = before_record(s, work);
    let record = SnapshotView { id: Seq::empty(), ..snap };
    lemma_taken_shape(s, work, label, agent, wanted, time);
    let payload = encode_utf8(snapshot_text(record));
    assert(snapshot_text(record) == snapshot_text(snap));
    let s3 = StoreView { objects: stored(s2.objects, Kind::Snapshot, payload), ..s2 };
    assert(after == s3.with_turn(snap.turn, snap.id));
    assert(s3.turns() == s.turns());
    law_recorded_turn_is_latest(s3, snap.turn, snap.id);
    law_object_ids_are_well_formed(Kind::Snapshot, payload);
    lemma_trimmed_id(snap.id);
    lemma_held_known(after.objects, Kind::Snapshot, payload);
    if let Some(n) = s.latest() {
        let last = s.turns().len() - 1;
        assert(turn_sound(s, kinds_of(s.objects), s.turns()[last]));
        law_history_is_append_only(s, work, label, agent, wanted, time);
        let id = s.turn_id(n)->Ok_0;
        lemma_known_extends(s.objects, after.objects, id, Kind::Snapshot);
        assert(s2.turn_id(n) == s.turn_id(n));
        assert(s2.latest() == Some(n));
        assert(snap.parent == Some(id));
    }
}

/// A sound store stays sound when a snapshot is taken, and when taking one
/// fails. Other contents with the same digest as something that the snapshot
/// stores are what could stand in the way.
#[verifier::rlimit(30)]
pub proof fn law_snapshot_keeps_the_store_sound(
    s: StoreView,
    work: Seq<LoadedView>,
    label: Seq<char>,
    agent: Seq<char>,
    wanted: Option<u64>,
    time: i64,
)
    requires
        wanted is None ==> s.latest() != Some(u64::MAX),
        store_sound(s),
        in_memory(taken(s, work, label, agent, wanted, time).0.objects),
        taken(s, work, label, agent, wanted, time).0.objects.dom().finite(),
        taken(s, work, label, agent, wanted, time).1 matches Ok(snap) ==> recordable(work)
            && work_held(taken(s, work, label, agent, wanted, time).0.objects, work) && held(
            taken(s, work, label, agent, wanted, time).0.objects,
            Kind::Snapshot,
            encode_utf8(snapshot_text(snap)),
        ),
    ensures
        store_sound(taken(s, work, label, agent, wanted, time).0),
{
    let (after, r) = taken(s, work, label, agent, wanted, time);
    let kinds = kinds_of(after.objects);
    lemma_taken_objects_sound(s, work, label, agent, wanted, time);
    law_history_is_append_only(s, work, label, agent, wanted, time);
    assert forall|id: Seq<char>| #[trigger] known(kinds, id, Kind::Snapshot) && known(
        kinds_of(s.objects),
        id,
        Kind::Snapshot,
    ) implies snapshot_sound(after.objects, kinds, id) by {
        lemma_known_extends(s.objects, after.objects, id, Kind::Snapshot);
        lemma_record_extends(
            s.objects,
            after.objects,
            parsed_snapshot(id, fetched(s.objects, id)->Ok_0.1)->Ok_0,
        );
    }
    if r is Ok {
        let snap = r->Ok_0;
        lemma_taken_turn_sound(s, work, label, agent, wanted, time);
        law_taken_snapshot_is_latest(s, work, label, agent, wanted, time);
        lemma_taken_shape(s, work, label, agent, wanted, time);
        law_turns_are_ascending(s);
        let record = SnapshotView { id: Seq::empty(), ..snap };
        let payload = encode_utf8(snapshot_text(record));
        let s2 = before_record(s, work);
        let s3 = StoreView { objects: stored(s2.objects, Kind::Snapshot, payload), ..s2 };
        assert(after == s3.with_turn(snap.turn, snap.id));
        assert(s3.turns() == s.turns());
        law_recorded_turn_is_latest(s3, snap.turn, snap.id);
        assert forall|i: int| 0 <= i < after.turns().len() implies turn_sound(
            after,
            kinds,
            #[trigger] after.turns()[i],
        ) by {
            if i < s.turns().len() {
                let t = s.turns()[i];
                assert(after.turns()[i] == t);
                assert(t <= s.turns()[s.turns().len() - 1]);
                assert(s3.turn_id(t) == s.turn_id(t));
                lemma_turn_extends(s, after, t);
            }
        }
        law_object_ids_are_well_formed(Kind::Snapshot, payload);
        lemma_trimmed_id(snap.id);
        assert(snapshot_sound(after.objects, kinds, snap.id)) by {
            assert(turn_sound(after, kinds, snap.turn));
            assert(after.turn_id(snap.turn) == Ok::<Seq<char>, Seq<char>>(snap.id));
        }
    } else {
        assert(after.turns() == s.turns());
        assert forall|i: int| 0 <= i < after.turns().len() implies turn_sound(
            after,
            kinds,
            #[trigger] after.turns()[i],
        ) by {
            assert(after.turn_id(s.turns()[i]) == s.turn_id(s.turns()[i]));
            lemma_turn_extends(s, after, s.turns()[i]);
        }
    }
}

proof fn lemma_stored_as_written(
    objects: Map<Seq<char>, Seq<u8>>,
    kind: Kind,
    payload: Seq<u8>,
    whole: Map<Seq<char>, Seq<u8>>,
)
    requires
        as_written(objects),
        extends(stored(objects, kind, payload), whole),
        in_memory(whole),
    ensures
        as_written(stored(objects, kind, payload)),
{
    let id = object_id(kind, payload);
    let after = stored(objects, kind, payload);
    if !objects.contains_key(id) {
        assert(after.contains_key(id));
        assert(whole.contains_key(id) && whole[id] == encoded(kind, payload));
        assert(payload.len() <= encoded(kind, payload).len());
        law_encoded_object_reads_back(id, kind, payload);
        law_object_ids_are_well_formed(kind, payload);
        assert forall|x: Seq<char>| #[trigger] after.contains_key(x) && fetched(
            after,
            x,
        ) is Ok implies after[x] == encoded(
            fetched(after, x)->Ok_0.0,
            fetched(after, x)->Ok_0.1,
        ) by {
            if x != id {
                assert(objects.contains_key(x));
                assert(fetched(objects, x) == fetched(after, x));
            }
        }
    }
}

proof fn lemma_blobs_as_written(
    objects: Map<Seq<char>, Seq<u8>>,
    work: Seq<LoadedView>,
    whole: Map<Seq<char>, Seq<u8>>,
)
    requires
        as_written(objects),
        extends(blobs_stored(objects, work).0, whole),
        in_memory(whole),
    ensures
        as_written(blobs_stored(objects, work).0),
    decreases work.len(),
{
    if work.len() > 0 {
        let before = blobs_stored(objects, work.drop_last()).0;
        assert(extends(before, blobs_stored(objects, work).0));
        lemma_extends_on(before, blobs_stored(objects, work).0, whole);
        lemma_blobs_as_written(objects, work.drop_last(), whole);
        if blobs_stored(objects, work.drop_last()).1 is Ok && work.last().data is Ok {
            lemma_stored_as_written(before, Kind::Blob, work.last().data->Ok_0, whole);
        }
    }
}

proof fn lemma_subtrees_as_written(
    objects: Map<Seq<char>, Seq<u8>>,
    d: Seq<EntryView>,
    n: nat,
    whole: Map<Seq<char>, Seq<u8>>,
)
    requires
        n <= d.len(),
        as_written(objects),
        extends(subtrees_stored(objects, d, n), whole),
        in_memory(whole),
    ensures
        as_written(subtrees_stored(objects, d, n)),
    decreases d, n,
{
    if n > 0 {
        let m = (n - 1) as nat;
        let before = subtrees_stored(objects, d, m);
        let after = subtrees_stored(objects, d, n);
        match d[n - 1].node {
            NodeView::File { .. } => {
                lemma_subtrees_as_written(objects, d, m, whole);
            },
            NodeView::Dir(sub) => {
                let mid = subtrees_stored(before, sub, sub.len());
                lemma_subtrees_extend(before, sub, sub.len());
                assert(extends(mid, after));
                lemma_extends_on(mid, after, whole);
                lemma_extends_on(before, mid, whole);
                lemma_subtrees_as_written(objects, d, m, whole);
                lemma_subtrees_as_written(before, sub, sub.len(), whole);
                lemma_stored_as_written(mid, Kind::Tree, tree_payload(sub), whole);
            },
        }
    }
}

/// Taking a snapshot, or failing to, leaves every object in the form in which
/// it is written.
pub proof fn law_snapshot_keeps_objects_as_written(
    s: StoreView,
    work: Seq<LoadedView>,
    label: Seq<char>,
    agent: Seq<char>,
    wanted: Option<u64>,
    time: i64,
)
    requires
        as_written(s.objects),
        in_memory(taken(s, work, label, agent, wanted, time).0.objects),
    ensures
        as_written(taken(s, work, label, agent, wanted, time).0.objects),
{
    let after = taken(s, work, label, agent, wanted, time).0.objects;
    let (blobs, b) = blobs_stored(s.objects, work);
    if b is Err {
        lemma_blobs_as_written(s.objects, work, after);
    } else {
        let entries = b->Ok_0;
        match grown_tree(entries, entries.len()) {
            Err(_) => {
                lemma_blobs_as_written(s.objects, work, after);
            },
            Ok(d) => {
                let mid = subtrees_stored(blobs, d, d.len());
                let full = tree_stored(blobs, d);
                lemma_subtrees_extend(blobs, d, d.len());
                assert(extends(mid, full));
                assert(extends(full, after));
                lemma_extends_on(mid, full, after);
                lemma_extends_on(blobs, mid, after);
                lemma_blobs_as_written(s.objects, work, after);
                lemma_subtrees_as_written(blobs, d, d.len(), after);
                lemma_stored_as_written(mid, Kind::Tree, tree_payload(d), after);
                if after != full {
                    let payload = choose|payload: Seq<u8>|
                        after == #[trigger] stored(full, Kind::Snapshot, payload);
                    lemma_stored_as_written(full, Kind::Snapshot, payload, after);
                }
            },
        }
    }
}

} // verus!
