//! What a walk finds: files in order, each once, none below another, none that
//! should have been left out, and all of them fit to be recorded.

use vstd::prelude::*;

use crate::glob::PatternView;
use crate::order::{distinct_keys, in_order, law_sorted_by, lemma_one_order, sorted_by};
use crate::readback::{recordable, work_entries, writable_name, writable_path};
use crate::snapshot::{path_below, LoadedView};
use crate::text::{lemma_pieces_concat, lemma_pieces_single, pieces};
use crate::walker::{
    always_skipped, entry_walk, excluded_by_default, first_bad_name, ignored, lemma_visits,
    list_walk, summed, visit_of, visits, walked, Found, FoundEntry, Visit, Visited, WorkFileView,
};

verus! {

/// A name as file systems have them: not empty, without a slash.
pub open spec fn plain_name(name: Seq<char>) -> bool {
    name.len() > 0 && !name.contains('/')
}

/// An entry as file systems have them: a plain name, and below a directory
/// plain entries with distinct names.
pub open spec fn plain_entry(e: FoundEntry) -> bool
    decreases e, 0nat,
{
    &&& plain_name(e.name@)
    &&& e.found matches Found::Dir(Ok(list)) ==> plain_entries(list, list@.len())
        && distinct_names(list)
}

/// The first `n` entries are plain.
pub open spec fn plain_entries(list: Vec<FoundEntry>, n: nat) -> bool
    decreases list, n,
{
    n == 0 || n > list@.len() || (plain_entries(list, (n - 1) as nat) && plain_entry(list[n - 1]))
}

/// No two entries have the same name.
pub open spec fn distinct_names(list: Vec<FoundEntry>) -> bool {
    forall|i: int, j: int|
        0 <= i < list@.len() && 0 <= j < list@.len() && (#[trigger] list@[i]).name@ == (
        #[trigger] list@[j]).name@ ==> i == j
}

/// The components of a directory's path; the root has none.
pub open spec fn dir_components(prefix: Seq<char>) -> Seq<Seq<char>> {
    if prefix.len() == 0 {
        Seq::empty()
    } else {
        pieces(prefix, '/')
    }
}

/// A component that a walk can come upon: a plain name without a newline that
/// is neither skipped nor excluded.
pub open spec fn clean_component(name: Seq<char>) -> bool {
    &&& name.len() > 0
    &&& !name.contains('\n')
    &&& !always_skipped(name)
    &&& !excluded_by_default(name)
}

/// Every component is one that a walk can come upon.
pub open spec fn clean_components(comps: Seq<Seq<char>>) -> bool {
    forall|i: int| 0 <= i < comps.len() ==> clean_component(#[trigger] comps[i])
}

/// Every file is below the directory with the given components, its path is
/// clean, and no pattern matches it.
pub open spec fn all_below(
    files: Seq<WorkFileView>,
    dir: Seq<Seq<char>>,
    patterns: Seq<PatternView>,
) -> bool {
    forall|i: int|
        0 <= i < files.len() ==> dir.is_prefix_of(pieces((#[trigger] files[i]).rel, '/'))
            && clean_components(pieces(files[i].rel, '/')) && !ignored(
            patterns,
            files[i].rel,
            false,
        )
}

/// No file's path is another one's, or leads through it.
pub open spec fn apart(files: Seq<WorkFileView>) -> bool {
    forall|i: int, j: int|
        0 <= i < files.len() && 0 <= j < files.len() && i != j ==> !pieces(
            (#[trigger] files[i]).rel,
            '/',
        ).is_prefix_of(pieces((#[trigger] files[j]).rel, '/'))
}

/// The components one level down.
pub(crate) proof fn lemma_components_below(prefix: Seq<char>, name: Seq<char>)
    requires
        plain_name(name),
    ensures
        pieces(path_below(prefix, name), '/') == dir_components(prefix).push(name),
        path_below(prefix, name).len() > 0,
{
    lemma_pieces_single(name, '/');
    if prefix.len() == 0 {
        assert(Seq::<Seq<char>>::empty().push(name) =~= seq![name]);
    } else {
        reveal_strlit("/");
        let whole = path_below(prefix, name);
        assert(whole =~= prefix.push('/') + name);
        lemma_pieces_concat(prefix, name, '/');
        assert(pieces(prefix, '/') + seq![name] =~= pieces(prefix, '/').push(name));
    }
}

/// Paths that go on with different names after a common start are apart.
proof fn lemma_different_names(
    dir: Seq<Seq<char>>,
    a: Seq<char>,
    b: Seq<char>,
    p: Seq<Seq<char>>,
    q: Seq<Seq<char>>,
)
    requires
        a != b,
        dir.push(a).is_prefix_of(p),
        dir.push(b).is_prefix_of(q),
    ensures
        !p.is_prefix_of(q),
        !q.is_prefix_of(p),
{
    let k = dir.len() as int;
    assert(p[k] == a) by {
        assert(dir.push(a)[k] == p.subrange(0, dir.push(a).len() as int)[k]);
    }
    assert(q[k] == b) by {
        assert(dir.push(b)[k] == q.subrange(0, dir.push(b).len() as int)[k]);
    }
    if p.is_prefix_of(q) {
        assert(p[k] == q.subrange(0, p.len() as int)[k]);
    }
    if q.is_prefix_of(p) {
        assert(q[k] == p.subrange(0, q.len() as int)[k]);
    }
}

proof fn lemma_longer_prefix(dir: Seq<Seq<char>>, name: Seq<char>, p: Seq<Seq<char>>)
    requires
        dir.push(name).is_prefix_of(p),
    ensures
        dir.is_prefix_of(p),
{
    assert(dir =~= p.subrange(0, dir.len() as int)) by {
        assert forall|i: int| 0 <= i < dir.len() implies dir[i] == p[i] by {
            assert(dir.push(name)[i] == p.subrange(0, dir.push(name).len() as int)[i]);
        }
    }
}

/// What each visit found is below its own name, and apart.
spec fn visit_fits(v: Visited, dir: Seq<Seq<char>>, patterns: Seq<PatternView>) -> bool {
    v.outcome matches Ok(t) ==> all_below(t.files, dir.push(v.name), patterns) && apart(t.files)
}

proof fn lemma_summed(
    vs: Seq<Visited>,
    n: nat,
    dir: Seq<Seq<char>>,
    patterns: Seq<PatternView>,
)
    requires
        n <= vs.len(),
        summed(vs, n) is Ok,
        forall|i: int| 0 <= i < vs.len() ==> visit_fits(#[trigger] vs[i], dir, patterns),
        forall|i: int, j: int|
            0 <= i < vs.len() && 0 <= j < vs.len() && (#[trigger] vs[i]).name == (
            #[trigger] vs[j]).name ==> i == j,
    ensures
        all_below(summed(vs, n)->Ok_0.files, dir, patterns),
        apart(summed(vs, n)->Ok_0.files),
        forall|k: int|
            0 <= k < summed(vs, n)->Ok_0.files.len() ==> exists|i: int|
                0 <= i < n && dir.push((#[trigger] vs[i]).name).is_prefix_of(
                    pieces((#[trigger] summed(vs, n)->Ok_0.files[k]).rel, '/'),
                ),
    decreases n,
{
    if n > 0 {
        let m = (n - 1) as nat;
        lemma_summed(vs, m, dir, patterns);
        let before = summed(vs, m)->Ok_0.files;
        let more = vs[n - 1].outcome->Ok_0.files;
        let all = summed(vs, n)->Ok_0.files;
        assert(visit_fits(vs[n - 1], dir, patterns));
        assert(all == before + more);
        assert forall|k: int| 0 <= k < all.len() implies exists|i: int|
            0 <= i < n && dir.push((#[trigger] vs[i]).name).is_prefix_of(
                pieces((#[trigger] all[k]).rel, '/'),
            ) by {
            if k < before.len() {
                assert(all[k] == before[k]);
                let i = choose|i: int|
                    0 <= i < m && dir.push((#[trigger] vs[i]).name).is_prefix_of(
                        pieces(before[k].rel, '/'),
                    );
                assert(dir.push(vs[i].name).is_prefix_of(pieces(all[k].rel, '/')));
            } else {
                assert(all[k] == more[k - before.len()]);
                assert(dir.push(vs[n - 1].name).is_prefix_of(pieces(all[k].rel, '/')));
            }
        }
        assert forall|k: int| 0 <= k < all.len() implies dir.is_prefix_of(
            pieces((#[trigger] all[k]).rel, '/'),
        ) && clean_components(pieces(all[k].rel, '/')) && !ignored(
            patterns,
            all[k].rel,
            false,
        ) by {
            if k < before.len() {
                assert(all[k] == before[k]);
            } else {
                assert(all[k] == more[k - before.len()]);
                lemma_longer_prefix(dir, vs[n - 1].name, pieces(all[k].rel, '/'));
            }
        }
        assert forall|a: int, b: int| 0 <= a < all.len() && 0 <= b < all.len() && a != b implies
            !pieces((#[trigger] all[a]).rel, '/').is_prefix_of(
            pieces((#[trigger] all[b]).rel, '/'),
        ) by {
            let z = before.len();
            if a < z && b < z {
                assert(all[a] == before[a] && all[b] == before[b]);
            } else if a >= z && b >= z {
                assert(all[a] == more[a - z] && all[b] == more[b - z]);
            } else {
                let (x, y) = if a < z {
                    (a, b)
                } else {
                    (b, a)
                };
                assert(all[x] == before[x]);
                assert(all[y] == more[y - z]);
                let i = choose|i: int|
                    0 <= i < m && dir.push((#[trigger] vs[i]).name).is_prefix_of(
                        pieces(before[x].rel, '/'),
                    );
                assert(vs[i].name != vs[n - 1].name);
                lemma_different_names(
                    dir,
                    vs[i].name,
                    vs[n - 1].name,
                    pieces(all[x].rel, '/'),
                    pieces(all[y].rel, '/'),
                );
            }
        }
    }
}

/// Sorting keeps names distinct.
pub(crate) proof fn lemma_sorted_visits(raw: Seq<Visited>)
    requires
        forall|i: int, j: int|
            0 <= i < raw.len() && 0 <= j < raw.len() && (#[trigger] raw[i]).name == (
            #[trigger] raw[j]).name ==> i == j,
    ensures
        ({
            let vs = sorted_by(raw, |v: Visited| v.name);
            &&& vs.len() == raw.len()
            &&& forall|i: int, j: int|
                0 <= i < vs.len() && 0 <= j < vs.len() && (#[trigger] vs[i]).name == (
                #[trigger] vs[j]).name ==> i == j
            &&& forall|v: Visited| #[trigger] vs.contains(v) <==> raw.contains(v)
        }),
{
    let key = |v: Visited| v.name;
    let vs = sorted_by(raw, key);
    law_sorted_by(raw, key);
    assert(raw.no_duplicates()) by {
        assert forall|i: int, j: int|
            0 <= i < raw.len() && 0 <= j < raw.len() && i != j implies raw[i] != raw[j] by {
            if raw[i] == raw[j] {
                assert(raw[i].name == raw[j].name);
            }
        }
    }
    raw.lemma_multiset_has_no_duplicates();
    vs.lemma_multiset_has_no_duplicates_conv();
    assert forall|i: int, j: int|
        0 <= i < vs.len() && 0 <= j < vs.len() && (#[trigger] vs[i]).name == (
        #[trigger] vs[j]).name implies i == j by {
        assert(vs.contains(vs[i]) && vs.contains(vs[j]));
        let a = choose|a: int| 0 <= a < raw.len() && raw[a] == vs[i];
        let b = choose|b: int| 0 <= b < raw.len() && raw[b] == vs[j];
        assert(raw[a].name == raw[b].name);
        assert(vs[i] == vs[j]);
    }
}

proof fn lemma_first_bad_name(list: Seq<FoundEntry>, n: int, i: int)
    requires
        first_bad_name(list, n) is None,
        0 <= n <= i < list.len(),
    ensures
        !list[i].name@.contains('\n'),
    decreases list.len() - n,
{
    if n < i {
        lemma_first_bad_name(list, n + 1, i);
    }
}

pub(crate) proof fn lemma_plain_at(list: Vec<FoundEntry>, n: nat, i: int)
    requires
        plain_entries(list, n),
        0 <= i < n <= list@.len(),
    ensures
        plain_entry(list[i]),
    decreases n,
{
    if i < n - 1 {
        lemma_plain_at(list, (n - 1) as nat, i);
    }
}

/// What an entry adds is below its name, and apart.
proof fn lemma_entry_walk(e: FoundEntry, prefix: Seq<char>, patterns: Seq<PatternView>)
    requires
        plain_entry(e),
        !e.name@.contains('\n'),
        clean_components(dir_components(prefix)),
        entry_walk(e, prefix, patterns) is Ok,
    ensures
        ({
            let t = entry_walk(e, prefix, patterns)->Ok_0;
            &&& all_below(t.files, dir_components(prefix).push(e.name@), patterns)
            &&& apart(t.files)
        }),
    decreases e, 0nat,
{
    let rel = path_below(prefix, e.name@);
    let t = entry_walk(e, prefix, patterns)->Ok_0;
    let dir = dir_components(prefix);
    let what = visit_of(e.name@, rel, e.found is Link, e.found is Dir, patterns);
    lemma_components_below(prefix, e.name@);
    if !(e.found is Unknown) || always_skipped(e.name@) {
        match what {
            Visit::Take => {
                let p = pieces(rel, '/');
                assert(dir.push(e.name@) =~= p.subrange(0, p.len() as int));
                assert(clean_components(p)) by {
                    assert forall|i: int| 0 <= i < p.len() implies clean_component(
                        #[trigger] p[i],
                    ) by {
                        if i < dir.len() {
                            assert(p[i] == dir[i]);
                        }
                    }
                }
            },
            Visit::Enter => {
                if let Found::Dir(Ok(list)) = e.found {
                    let p = pieces(rel, '/');
                    assert(dir_components(rel) == p);
                    assert forall|i: int| 0 <= i < p.len() implies clean_component(
                        #[trigger] p[i],
                    ) by {
                        if i < dir.len() {
                            assert(p[i] == dir[i]);
                        }
                    }
                    lemma_list_walk(list, rel, patterns);
                }
            },
            _ => {},
        }
    }
}

/// What a listing adds up to is below its directory, and apart.
proof fn lemma_list_walk(list: Vec<FoundEntry>, prefix: Seq<char>, patterns: Seq<PatternView>)
    requires
        plain_entries(list, list@.len()),
        distinct_names(list),
        clean_components(dir_components(prefix)),
        list_walk(list, prefix, patterns) is Ok,
    ensures
        ({
            let t = list_walk(list, prefix, patterns)->Ok_0;
            &&& all_below(t.files, dir_components(prefix), patterns)
            &&& apart(t.files)
        }),
    decreases list, list@.len() + 1,
{
    let dir = dir_components(prefix);
    let raw = visits(list, list@.len(), prefix, patterns);
    let vs = sorted_by(raw, |v: Visited| v.name);
    lemma_visits(list, list@.len(), prefix, patterns);
    assert(list@.take(list@.len() as int) =~= list@);
    assert forall|i: int, j: int|
        0 <= i < raw.len() && 0 <= j < raw.len() && (#[trigger] raw[i]).name == (
        #[trigger] raw[j]).name implies i == j by {
        assert(list@[i].name@ == list@[j].name@);
    }
    lemma_sorted_visits(raw);
    assert forall|i: int| 0 <= i < raw.len() implies visit_fits(#[trigger] raw[i], dir, patterns) by {
        lemma_plain_at(list, list@.len(), i);
        lemma_first_bad_name(list@, 0, i);
        if raw[i].outcome is Ok {
            lemma_entry_walk(list[i], prefix, patterns);
        }
    }
    assert forall|i: int| 0 <= i < vs.len() implies visit_fits(#[trigger] vs[i], dir, patterns) by {
        assert(vs.contains(vs[i]));
        let a = choose|a: int| 0 <= a < raw.len() && raw[a] == vs[i];
        assert(visit_fits(raw[a], dir, patterns));
    }
    lemma_summed(vs, vs.len(), dir, patterns);
}

/// A walk finds files in the order of their paths. No path is found twice or
/// leads through another, none has a skipped or excluded component or a
/// newline, and no pattern matches a file that was found.
pub proof fn law_walk_finds_clean_files(
    root: Result<Vec<FoundEntry>, String>,
    patterns: Seq<PatternView>,
)
    requires
        walked(root, patterns) is Ok,
        root matches Ok(list) && plain_entries(list, list@.len()) && distinct_names(list),
    ensures
        ({
            let (files, _) = walked(root, patterns)->Ok_0;
            &&& in_order(files, |f: WorkFileView| f.rel)
            &&& apart(files)
            &&& all_below(files, Seq::empty(), patterns)
        }),
{
    let list = root->Ok_0;
    let none = Seq::<char>::empty();
    let t = list_walk(list, none, patterns)->Ok_0;
    let key = |f: WorkFileView| f.rel;
    lemma_list_walk(list, none, patterns);
    let files = sorted_by(t.files, key);
    law_sorted_by(t.files, key);
    assert(t.files.no_duplicates()) by {
        assert forall|i: int, j: int|
            0 <= i < t.files.len() && 0 <= j < t.files.len() && i != j implies t.files[i]
            != t.files[j] by {
            if t.files[i] == t.files[j] {
                let p = pieces(t.files[i].rel, '/');
                assert(p =~= p.subrange(0, p.len() as int));
                assert(p.is_prefix_of(pieces(t.files[j].rel, '/')));
            }
        }
    }
    t.files.lemma_multiset_has_no_duplicates();
    files.lemma_multiset_has_no_duplicates_conv();
    assert forall|i: int, j: int| 0 <= i < files.len() && 0 <= j < files.len() && i != j implies
        !pieces((#[trigger] files[i]).rel, '/').is_prefix_of(
        pieces((#[trigger] files[j]).rel, '/'),
    ) by {
        assert(files.contains(files[i]) && files.contains(files[j]));
        let a = choose|a: int| 0 <= a < t.files.len() && t.files[a] == files[i];
        let b = choose|b: int| 0 <= b < t.files.len() && t.files[b] == files[j];
        assert(files[i] != files[j]);
        assert(a != b);
        assert(!pieces(t.files[a].rel, '/').is_prefix_of(pieces(t.files[b].rel, '/')));
    }
    assert forall|i: int| 0 <= i < files.len() implies Seq::<Seq<char>>::empty().is_prefix_of(
        pieces((#[trigger] files[i]).rel, '/'),
    ) && clean_components(pieces(files[i].rel, '/')) && !ignored(
        patterns,
        files[i].rel,
        false,
    ) by {
        assert(files.contains(files[i]));
        let a = choose|a: int| 0 <= a < t.files.len() && t.files[a] == files[i];
        assert(t.files[a] == files[i]);
    }
}

/// The same entry, listed again: below it, each listing may come in another
/// order.
pub open spec fn relisted(a: FoundEntry, b: FoundEntry) -> bool
    decreases a, 0nat,
{
    &&& a.name@ == b.name@
    &&& a.path@ == b.path@
    &&& match (a.found, b.found) {
        (Found::Link, Found::Link) => true,
        (Found::File { executable: x }, Found::File { executable: y }) => x == y,
        (Found::Unknown(x), Found::Unknown(y)) => x@ == y@,
        (Found::Dir(Err(x)), Found::Dir(Err(y))) => x@ == y@,
        (Found::Dir(Ok(x)), Found::Dir(Ok(y))) => {
            &&& x@.len() == y@.len()
            &&& distinct_names(x)
            &&& distinct_names(y)
            &&& all_relisted(x, y, x@.len())
        },
        _ => false,
    }
}

/// Each of the first `n` entries of `x` is listed again in `y`.
pub open spec fn all_relisted(x: Vec<FoundEntry>, y: Vec<FoundEntry>, n: nat) -> bool
    decreases x, n,
{
    n == 0 || n > x@.len() || (all_relisted(x, y, (n - 1) as nat) && relisted_among(
        x[n - 1],
        y,
        y@.len(),
    ))
}

/// The entry is listed again among the first `m` of `y`.
pub open spec fn relisted_among(e: FoundEntry, y: Vec<FoundEntry>, m: nat) -> bool
    decreases e, m + 1,
{
    0 < m <= y@.len() && (relisted(e, y[m - 1]) || relisted_among(e, y, (m - 1) as nat))
}

proof fn lemma_relisted_among(e: FoundEntry, y: Vec<FoundEntry>, m: nat) -> (j: int)
    requires
        relisted_among(e, y, m),
    ensures
        0 <= j < y@.len(),
        relisted(e, y[j]),
    decreases m,
{
    if relisted(e, y[m - 1]) {
        m - 1
    } else {
        lemma_relisted_among(e, y, (m - 1) as nat)
    }
}

proof fn lemma_relisted_at(x: Vec<FoundEntry>, y: Vec<FoundEntry>, n: nat, i: int) -> (j: int)
    requires
        all_relisted(x, y, n),
        0 <= i < n <= x@.len(),
    ensures
        0 <= j < y@.len(),
        relisted(x[i], y[j]),
    decreases n,
{
    if i == n - 1 {
        lemma_relisted_among(x[i], y, y@.len())
    } else {
        lemma_relisted_at(x, y, (n - 1) as nat, i)
    }
}

proof fn lemma_summed_all_found(vs: Seq<Visited>, n: nat, i: int)
    requires
        summed(vs, n) is Ok,
        0 <= i < n <= vs.len(),
    ensures
        vs[i].outcome is Ok,
    decreases n,
{
    if i < n - 1 {
        lemma_summed_all_found(vs, (n - 1) as nat, i);
    }
}

proof fn lemma_no_bad_name(list: Seq<FoundEntry>, n: int)
    requires
        0 <= n <= list.len(),
        forall|i: int| 0 <= i < list.len() ==> !(#[trigger] list[i]).name@.contains('\n'),
    ensures
        first_bad_name(list, n) is None,
    decreases list.len() - n,
{
    if n < list.len() {
        lemma_no_bad_name(list, n + 1);
    }
}

proof fn lemma_relisted_entry(
    a: FoundEntry,
    b: FoundEntry,
    prefix: Seq<char>,
    patterns: Seq<PatternView>,
)
    requires
        relisted(a, b),
        entry_walk(a, prefix, patterns) is Ok,
    ensures
        entry_walk(b, prefix, patterns) == entry_walk(a, prefix, patterns),
    decreases a, 0nat,
{
    let rel = path_below(prefix, a.name@);
    let what = visit_of(a.name@, rel, a.found is Link, a.found is Dir, patterns);
    if let Found::Dir(Ok(x)) = a.found {
        if let Found::Dir(Ok(y)) = b.found {
            if what == Visit::Enter {
                assert(entry_walk(a, prefix, patterns) == list_walk(x, rel, patterns));
                lemma_relisted_list(x, y, rel, patterns);
                assert(entry_walk(b, prefix, patterns) == list_walk(y, rel, patterns));
            }
        }
    }
}

proof fn lemma_relisted_list(
    x: Vec<FoundEntry>,
    y: Vec<FoundEntry>,
    prefix: Seq<char>,
    patterns: Seq<PatternView>,
)
    requires
        x@.len() == y@.len(),
        distinct_names(x),
        distinct_names(y),
        all_relisted(x, y, x@.len()),
        list_walk(x, prefix, patterns) is Ok,
    ensures
        list_walk(y, prefix, patterns) == list_walk(x, prefix, patterns),
    decreases x, x@.len() + 1,
{
    let key = |v: Visited| v.name;
    let n = x@.len();
    let vx = visits(x, n, prefix, patterns);
    let vy = visits(y, n, prefix, patterns);
    let sx = sorted_by(vx, key);
    let sy = sorted_by(vy, key);
    lemma_visits(x, n, prefix, patterns);
    lemma_visits(y, n, prefix, patterns);
    assert(x@.take(n as int) =~= x@);
    assert(y@.take(n as int) =~= y@);
    assert(distinct_keys(vx, key)) by {
        assert forall|i: int, j: int|
            0 <= i < vx.len() && 0 <= j < vx.len() && key(#[trigger] vx[i]) == key(
                #[trigger] vx[j],
            ) implies i == j by {
            assert(x@[i].name@ == x@[j].name@);
        }
    }
    assert(distinct_keys(vy, key)) by {
        assert forall|i: int, j: int|
            0 <= i < vy.len() && 0 <= j < vy.len() && key(#[trigger] vy[i]) == key(
                #[trigger] vy[j],
            ) implies i == j by {
            assert(y@[i].name@ == y@[j].name@);
        }
    }
    lemma_sorted_visits(vx);
    lemma_sorted_visits(vy);
    law_sorted_by(vx, key);
    law_sorted_by(vy, key);
    assert forall|v: Visited| #[trigger] vx.contains(v) implies vy.contains(v) by {
        let i = choose|i: int| 0 <= i < vx.len() && vx[i] == v;
        assert(sx.contains(v));
        let k = choose|k: int| 0 <= k < sx.len() && sx[k] == v;
        lemma_summed_all_found(sx, n, k);
        let j = lemma_relisted_at(x, y, n, i);
        lemma_relisted_entry(x[i], y[j], prefix, patterns);
        assert(vy[j] == v);
    }
    lemma_same_items(vx, vy, key);
    lemma_one_order(sx, sy, key);
    assert forall|j: int| 0 <= j < y@.len() implies !(#[trigger] y@[j]).name@.contains('\n') by {
        assert(vy.contains(vy[j]));
        assert(vx.contains(vy[j]));
        let i = choose|i: int| 0 <= i < vx.len() && vx[i] == vy[j];
        assert(x@[i].name@ == y@[j].name@);
        lemma_first_bad_name(x@, 0, i);
    }
    lemma_no_bad_name(y@, 0);
}

/// As many items, all of them among others that are as many: they are the
/// same.
proof fn lemma_same_items(p: Seq<Visited>, q: Seq<Visited>, key: spec_fn(Visited) -> Seq<char>)
    requires
        p.len() == q.len(),
        distinct_keys(p, key),
        distinct_keys(q, key),
        forall|v: Visited| #[trigger] p.contains(v) ==> q.contains(v),
    ensures
        forall|v: Visited| #[trigger] p.contains(v) <==> q.contains(v),
{
    assert(p.no_duplicates()) by {
        assert forall|i: int, j: int| 0 <= i < p.len() && 0 <= j < p.len() && i != j implies p[i]
            != p[j] by {
            if p[i] == p[j] {
                assert(key(p[i]) == key(p[j]));
            }
        }
    }
    assert(q.no_duplicates()) by {
        assert forall|i: int, j: int| 0 <= i < q.len() && 0 <= j < q.len() && i != j implies q[i]
            != q[j] by {
            if q[i] == q[j] {
                assert(key(q[i]) == key(q[j]));
            }
        }
    }
    p.unique_seq_to_set();
    q.unique_seq_to_set();
    assert forall|v: Visited| p.to_set().contains(v) implies q.to_set().contains(v) by {
        assert(p.contains(v));
    }
    vstd::set_lib::lemma_subset_equality(p.to_set(), q.to_set());
    assert forall|v: Visited| #[trigger] p.contains(v) <==> q.contains(v) by {
        assert(p.to_set().contains(v) <==> q.to_set().contains(v));
    }
}

/// What a walk finds does not depend on the order in which directories, at any
/// depth, list their entries.
pub proof fn law_listing_order_does_not_matter(
    a: Vec<FoundEntry>,
    b: Vec<FoundEntry>,
    patterns: Seq<PatternView>,
)
    requires
        a@.len() == b@.len(),
        distinct_names(a),
        distinct_names(b),
        all_relisted(a, b, a@.len()),
        walked(Ok(a), patterns) is Ok,
    ensures
        walked(Ok(b), patterns) == walked(Ok(a), patterns),
{
    lemma_relisted_list(a, b, Seq::empty(), patterns);
}

/// What a walk finds can be recorded, where it can be read.
pub proof fn law_walked_files_are_recordable(
    root: Result<Vec<FoundEntry>, String>,
    patterns: Seq<PatternView>,
    work: Seq<LoadedView>,
)
    requires
        walked(root, patterns) is Ok,
        root matches Ok(list) && plain_entries(list, list@.len()) && distinct_names(list),
        work.len() == walked(root, patterns)->Ok_0.0.len(),
        forall|i: int|
            0 <= i < work.len() ==> (#[trigger] work[i]).rel == walked(
                root,
                patterns,
            )->Ok_0.0[i].rel,
        forall|i: int| 0 <= i < work.len() ==> (#[trigger] work[i]).data is Ok,
    ensures
        recordable(work),
{
    law_walk_finds_clean_files(root, patterns);
    let files = walked(root, patterns)->Ok_0.0;
    let entries = work_entries(work);
    assert forall|i: int| 0 <= i < work.len() implies writable_path((#[trigger] work[i]).rel) by {
        assert(work[i].rel == files[i].rel);
        let p = pieces(work[i].rel, '/');
        assert(clean_components(pieces(files[i].rel, '/')));
        assert forall|k: int| 0 <= k < p.len() implies writable_name(#[trigger] p[k]) by {
            assert(clean_component(p[k]));
        }
    }
    assert forall|i: int, j: int|
        0 <= i < entries.len() && 0 <= j < entries.len() && i != j implies !pieces(
        (#[trigger] entries[i]).rel,
        '/',
    ).is_prefix_of(pieces((#[trigger] entries[j]).rel, '/')) by {
        assert(entries[i].rel == work[i].rel && work[i].rel == files[i].rel);
        assert(entries[j].rel == work[j].rel && work[j].rel == files[j].rel);
        assert(!pieces(files[i].rel, '/').is_prefix_of(pieces(files[j].rel, '/')));
    }
}

} // verus!
