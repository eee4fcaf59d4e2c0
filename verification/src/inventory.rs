//! What an integrity check looks at: every object file that is there, once, and
//! nothing counts as an object that is not what its name says.

use vstd::prelude::*;

use crate::audit::{fan_objects, fans_objects, listed, rehashed, FanView, NamedView, ObjectFileView};
use crate::object::{decoded, Kind};
use crate::order::{law_sorted_by, placed, sorted_by};
use crate::sha1::sha1_hex;

verus! {

/// How many files stand in the directories.
pub open spec fn file_count(fans: Seq<FanView>) -> nat
    decreases fans.len(),
{
    if fans.len() == 0 {
        0
    } else {
        file_count(fans.drop_last()) + fans.last().files.len()
    }
}

proof fn lemma_count_placed(
    sorted: Seq<FanView>,
    e: FanView,
    key: spec_fn(FanView) -> Seq<char>,
)
    ensures
        file_count(placed(sorted, e, key)) == file_count(sorted) + e.files.len(),
    decreases sorted.len(),
{
    let out = placed(sorted, e, key);
    if sorted.len() == 0 || !crate::order::text_before(key(e), key(sorted.last())) {
        assert(out.drop_last() =~= sorted);
    } else {
        lemma_count_placed(sorted.drop_last(), e, key);
        assert(out.drop_last() =~= placed(sorted.drop_last(), e, key));
        assert(out.last() == sorted.last());
    }
}

proof fn lemma_count_sorted(fans: Seq<FanView>, key: spec_fn(FanView) -> Seq<char>)
    ensures
        file_count(sorted_by(fans, key)) == file_count(fans),
    decreases fans.len(),
{
    if fans.len() > 0 {
        lemma_count_sorted(fans.drop_last(), key);
        lemma_count_placed(sorted_by(fans.drop_last(), key), fans.last(), key);
    }
}

/// The file is one of the directory: its id is the directory's name and then its
/// own.
pub open spec fn lies_in(f: NamedView, fan: FanView) -> bool {
    exists|k: int|
        0 <= k < fan.files.len() && f.id == fan.name + (#[trigger] fan.files[k]).name && f.data
            == fan.files[k].data
}

proof fn lemma_fan(fan: FanView, f: NamedView)
    ensures
        fan_objects(fan).contains(f) <==> lies_in(f, fan),
        fan_objects(fan).len() == fan.files.len(),
{
    let key = |f: ObjectFileView| f.name;
    let sorted = sorted_by(fan.files, key);
    let out = fan_objects(fan);
    law_sorted_by(fan.files, key);
    if out.contains(f) {
        let i = choose|i: int| 0 <= i < out.len() && out[i] == f;
        assert(sorted.contains(sorted[i]));
        let k = choose|k: int| 0 <= k < fan.files.len() && fan.files[k] == sorted[i];
        assert(f.id == fan.name + fan.files[k].name && f.data == fan.files[k].data);
    }
    if lies_in(f, fan) {
        let k = choose|k: int|
            0 <= k < fan.files.len() && f.id == fan.name + (#[trigger] fan.files[k]).name && f.data
                == fan.files[k].data;
        assert(fan.files.contains(fan.files[k]));
        assert(sorted.contains(fan.files[k]));
        let i = choose|i: int| 0 <= i < sorted.len() && sorted[i] == fan.files[k];
        assert(out[i] == f);
    }
}

proof fn lemma_fans(fans: Seq<FanView>, n: nat, f: NamedView)
    requires
        n <= fans.len(),
    ensures
        fans_objects(fans, n).contains(f) <==> exists|d: int|
            0 <= d < n && lies_in(f, #[trigger] fans[d]),
        fans_objects(fans, n).len() == file_count(fans.take(n as int)),
    decreases n,
{
    if n > 0 {
        lemma_fans(fans, (n - 1) as nat, f);
        lemma_fan(fans[n - 1], f);
        let before = fans_objects(fans, (n - 1) as nat);
        let more = fan_objects(fans[n - 1]);
        let all = before + more;
        assert(fans.take(n as int).drop_last() =~= fans.take(n - 1));
        if all.contains(f) {
            let i = choose|i: int| 0 <= i < all.len() && all[i] == f;
            if i < before.len() {
                assert(before[i] == f);
                let d = choose|d: int| 0 <= d < n - 1 && lies_in(f, #[trigger] fans[d]);
                assert(lies_in(f, fans[d]));
            } else {
                assert(more[i - before.len()] == f);
                assert(lies_in(f, fans[n - 1]));
            }
        }
        if exists|d: int| 0 <= d < n && lies_in(f, #[trigger] fans[d]) {
            let d = choose|d: int| 0 <= d < n && lies_in(f, #[trigger] fans[d]);
            if d < n - 1 {
                assert(before.contains(f));
                let i = choose|i: int| 0 <= i < before.len() && before[i] == f;
                assert(all[i] == f);
            } else {
                let i = choose|i: int| 0 <= i < more.len() && more[i] == f;
                assert(all[before.len() + i] == f);
            }
        }
    } else {
        assert(fans.take(0).len() == 0);
    }
}

/// The object files that are checked are all that stand in the directories, as
/// many as there are, each under the name of its directory and its own.
pub proof fn law_every_object_file_is_listed(fans: Seq<FanView>, f: NamedView)
    ensures
        listed(fans).contains(f) <==> exists|d: int|
            0 <= d < fans.len() && lies_in(f, #[trigger] fans[d]),
        listed(fans).len() == file_count(fans),
{
    let key = |f: FanView| f.name;
    let sorted = sorted_by(fans, key);
    law_sorted_by(fans, key);
    lemma_count_sorted(fans, key);
    lemma_fans(sorted, sorted.len(), f);
    assert(sorted.take(sorted.len() as int) =~= sorted);
    if exists|d: int| 0 <= d < sorted.len() && lies_in(f, #[trigger] sorted[d]) {
        let d = choose|d: int| 0 <= d < sorted.len() && lies_in(f, #[trigger] sorted[d]);
        assert(sorted.contains(sorted[d]));
        let e = choose|e: int| 0 <= e < fans.len() && fans[e] == sorted[d];
        assert(lies_in(f, fans[e]));
    }
    if exists|d: int| 0 <= d < fans.len() && lies_in(f, #[trigger] fans[d]) {
        let d = choose|d: int| 0 <= d < fans.len() && lies_in(f, #[trigger] fans[d]);
        assert(fans.contains(fans[d]));
        assert(sorted.contains(fans[d]));
        let e = choose|e: int| 0 <= e < sorted.len() && sorted[e] == fans[d];
        assert(lies_in(f, sorted[e]));
    }
}

/// The file can be read, has the id that its bytes hash to, and is an object of
/// the kind.
pub open spec fn is_sound_file(f: NamedView, id: Seq<char>, kind: Kind) -> bool {
    &&& f.id == id
    &&& f.data matches Ok(data) && sha1_hex(data) == id && (decoded(id, data) matches Ok((k, _))
        && k == kind)
}

proof fn lemma_kinds(files: Seq<NamedView>, n: nat, id: Seq<char>)
    requires
        n <= files.len(),
    ensures
        ({
            let kinds = rehashed(files, n).kinds;
            &&& kinds.contains_key(id) ==> exists|i: int|
                0 <= i < n && is_sound_file(#[trigger] files[i], id, kinds[id])
            &&& forall|i: int, k: Kind|
                0 <= i < n && #[trigger] is_sound_file(files[i], id, k) ==> kinds.contains_key(id)
        }),
    decreases n,
{
    if n > 0 {
        lemma_kinds(files, (n - 1) as nat, id);
        let before = rehashed(files, (n - 1) as nat).kinds;
        let kinds = rehashed(files, n).kinds;
        let f = files[n - 1];
        if kinds.contains_key(id) {
            if before.contains_key(id) && kinds[id] == before[id] {
                let i = choose|i: int|
                    0 <= i < n - 1 && is_sound_file(#[trigger] files[i], id, before[id]);
                assert(is_sound_file(files[i], id, kinds[id]));
            } else {
                assert(is_sound_file(files[n - 1], id, kinds[id]));
            }
        }
    }
}

/// An object is known to a check, and of what kind, exactly where a file of its
/// name holds it.
pub proof fn law_known_objects_have_sound_files(fans: Seq<FanView>, id: Seq<char>)
    ensures
        ({
            let files = listed(fans);
            let kinds = rehashed(files, files.len()).kinds;
            &&& kinds.contains_key(id) ==> exists|i: int|
                0 <= i < files.len() && is_sound_file(#[trigger] files[i], id, kinds[id])
            &&& forall|i: int, k: Kind|
                0 <= i < files.len() && #[trigger] is_sound_file(files[i], id, k)
                    ==> kinds.contains_key(id)
        }),
{
    lemma_kinds(listed(fans), listed(fans).len(), id);
}

} // verus!
