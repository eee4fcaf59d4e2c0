//! What a walk finds is all that there is to find: every file of the working
//! tree that no rule leaves out, and nothing else.

use vstd::prelude::*;

use crate::glob::PatternView;
use crate::order::{law_sorted_by, sorted_by};
use crate::snapshot::path_below;
use crate::survey::{distinct_names, lemma_sorted_visits, plain_entries};
use crate::walker::{
    always_skipped, entry_walk, excluded_by_default, ignored, lemma_visits, list_walk, summed,
    visit_of, visits, walked, Found, FoundEntry, Visit, Visited, WorkFileView,
};

verus! {

/// The entry with a name in the first `n` of a listing.
pub open spec fn entry_at(list: Vec<FoundEntry>, n: nat, name: Seq<char>) -> Option<FoundEntry>
    decreases n,
{
    if n == 0 || n > list@.len() {
        None
    } else if list[n - 1].name@ == name {
        Some(list[n - 1])
    } else {
        entry_at(list, (n - 1) as nat, name)
    }
}

/// A rule leaves the entry out: its name is one that is never looked at, or one
/// of the heavy ones that can be made again, or a pattern matches its path.
pub open spec fn left_out(
    name: Seq<char>,
    rel: Seq<char>,
    is_dir: bool,
    patterns: Seq<PatternView>,
) -> bool {
    ||| name == ".snapref"@
    ||| name == ".git"@
    ||| name == "node_modules"@
    ||| name == "target"@
    ||| name == "__pycache__"@
    ||| name == ".venv"@
    ||| name == "venv"@
    ||| name == "dist"@
    ||| name == ".cache"@
    ||| name == ".DS_Store"@
    ||| exists|i: int| 0 <= i < patterns.len() && (#[trigger] patterns[i]).matches(rel, is_dir)
}

/// The file at the end of a path of names, if every name on the way is there and
/// none is left out: its shown path and its exec bit.
pub open spec fn file_on_path(
    list: Vec<FoundEntry>,
    prefix: Seq<char>,
    path: Seq<Seq<char>>,
    patterns: Seq<PatternView>,
) -> Option<(Seq<char>, bool)>
    decreases path.len(),
{
    if path.len() == 0 {
        None
    } else {
        match entry_at(list, list@.len(), path[0]) {
            None => None,
            Some(e) => {
                let rel = path_below(prefix, path[0]);
                match e.found {
                    Found::File { executable } => if path.len() == 1 && !left_out(
                        path[0],
                        rel,
                        false,
                        patterns,
                    ) {
                        Some((e.path@, executable))
                    } else {
                        None
                    },
                    Found::Dir(Ok(sub)) => if path.len() > 1 && !left_out(
                        path[0],
                        rel,
                        true,
                        patterns,
                    ) {
                        file_on_path(sub, rel, path.drop_first(), patterns)
                    } else {
                        None
                    },
                    _ => None,
                }
            },
        }
    }
}

/// The path that names lead to from a directory.
pub open spec fn path_of(prefix: Seq<char>, path: Seq<Seq<char>>) -> Seq<char>
    decreases path.len(),
{
    if path.len() == 0 {
        prefix
    } else {
        path_of(path_below(prefix, path[0]), path.drop_first())
    }
}

/// The found file is the one at the end of a path of names.
pub open spec fn is_on_path(
    list: Vec<FoundEntry>,
    prefix: Seq<char>,
    path: Seq<Seq<char>>,
    patterns: Seq<PatternView>,
    f: WorkFileView,
) -> bool {
    &&& f.rel == path_of(prefix, path)
    &&& file_on_path(list, prefix, path, patterns) == Some((f.abs, f.executable))
}

proof fn lemma_entry_at(list: Vec<FoundEntry>, n: nat, name: Seq<char>)
    requires
        n <= list@.len(),
        distinct_names(list),
    ensures
        match entry_at(list, n, name) {
            Some(e) => e.name@ == name && exists|i: int| 0 <= i < n && #[trigger] list[i] == e,
            None => forall|i: int| 0 <= i < n ==> (#[trigger] list[i]).name@ != name,
        },
        forall|i: int|
            0 <= i < n && (#[trigger] list[i]).name@ == name ==> entry_at(list, n, name) == Some(
                list[i],
            ),
    decreases n,
{
    if n > 0 {
        lemma_entry_at(list, (n - 1) as nat, name);
        if list[n - 1].name@ == name {
            assert(list[n - 1] == entry_at(list, n, name)->0);
            assert forall|i: int| 0 <= i < n && (#[trigger] list[i]).name@ == name implies entry_at(
                list,
                n,
                name,
            ) == Some(list[i]) by {
                assert(list@[i].name@ == list@[n - 1].name@);
            }
        } else if let Some(e) = entry_at(list, n, name) {
            let i = choose|i: int| 0 <= i < n - 1 && #[trigger] list[i] == e;
            assert(list[i] == e);
        }
    }
}

proof fn lemma_left_out(
    name: Seq<char>,
    rel: Seq<char>,
    is_dir: bool,
    patterns: Seq<PatternView>,
)
    ensures
        left_out(name, rel, is_dir, patterns) <==> always_skipped(name) || excluded_by_default(name)
            || ignored(patterns, rel, is_dir),
{
}

/// What visits add up to is what each of them adds.
proof fn lemma_summed_files(vs: Seq<Visited>, n: nat, f: WorkFileView)
    requires
        n <= vs.len(),
        summed(vs, n) is Ok,
    ensures
        summed(vs, n)->Ok_0.files.contains(f) <==> exists|i: int|
            0 <= i < n && (#[trigger] vs[i]).outcome is Ok && vs[i].outcome->Ok_0.files.contains(f),
        forall|i: int| 0 <= i < n ==> (#[trigger] vs[i]).outcome is Ok,
    decreases n,
{
    if n > 0 {
        let m = (n - 1) as nat;
        lemma_summed_files(vs, m, f);
        let a = summed(vs, m)->Ok_0.files;
        let b = vs[n - 1].outcome->Ok_0.files;
        let all = summed(vs, n)->Ok_0.files;
        if all.contains(f) {
            let k = choose|k: int| 0 <= k < all.len() && all[k] == f;
            if k < a.len() {
                assert(a[k] == f);
                let i = choose|i: int|
                    0 <= i < m && (#[trigger] vs[i]).outcome is Ok
                        && vs[i].outcome->Ok_0.files.contains(f);
                assert(vs[i].outcome is Ok);
            } else {
                assert(b[k - a.len()] == f);
                assert(vs[n - 1].outcome is Ok);
            }
        }
        if exists|i: int|
            0 <= i < n && (#[trigger] vs[i]).outcome is Ok && vs[i].outcome->Ok_0.files.contains(
                f,
            ) {
            let i = choose|i: int|
                0 <= i < n && (#[trigger] vs[i]).outcome is Ok
                    && vs[i].outcome->Ok_0.files.contains(f);
            if i < m {
                assert(a.contains(f));
                let k = choose|k: int| 0 <= k < a.len() && a[k] == f;
                assert(all[k] == f);
            } else {
                let k = choose|k: int| 0 <= k < b.len() && b[k] == f;
                assert(all[a.len() + k] == f);
            }
        }
    }
}

/// A listing adds what its entries add.
proof fn lemma_list_files(
    list: Vec<FoundEntry>,
    prefix: Seq<char>,
    patterns: Seq<PatternView>,
    f: WorkFileView,
)
    requires
        distinct_names(list),
        list_walk(list, prefix, patterns) is Ok,
    ensures
        list_walk(list, prefix, patterns)->Ok_0.files.contains(f) <==> exists|i: int|
            0 <= i < list@.len() && entry_walk(#[trigger] list[i], prefix, patterns) is Ok
                && entry_walk(list[i], prefix, patterns)->Ok_0.files.contains(f),
        forall|i: int|
            0 <= i < list@.len() ==> entry_walk(#[trigger] list[i], prefix, patterns) is Ok,
{
    let n = list@.len();
    let raw = visits(list, n, prefix, patterns);
    let key = |v: Visited| v.name;
    let vs = sorted_by(raw, key);
    lemma_visits(list, n, prefix, patterns);
    assert(list@.take(n as int) =~= list@);
    assert forall|i: int, j: int|
        0 <= i < raw.len() && 0 <= j < raw.len() && (#[trigger] raw[i]).name == (
        #[trigger] raw[j]).name implies i == j by {
        assert(list@[i].name@ == list@[j].name@);
    }
    lemma_sorted_visits(raw);
    lemma_summed_files(vs, n, f);
    assert forall|i: int| 0 <= i < n implies entry_walk(
        #[trigger] list[i],
        prefix,
        patterns,
    ) is Ok by {
        assert(raw.contains(raw[i]));
        assert(vs.contains(raw[i]));
        let k = choose|k: int| 0 <= k < vs.len() && vs[k] == raw[i];
        assert(vs[k].outcome is Ok);
    }
    if exists|k: int|
        0 <= k < n && (#[trigger] vs[k]).outcome is Ok && vs[k].outcome->Ok_0.files.contains(f) {
        let k = choose|k: int|
            0 <= k < n && (#[trigger] vs[k]).outcome is Ok && vs[k].outcome->Ok_0.files.contains(f);
        assert(vs.contains(vs[k]));
        assert(raw.contains(vs[k]));
        let i = choose|i: int| 0 <= i < raw.len() && raw[i] == vs[k];
        assert(entry_walk(list[i], prefix, patterns) is Ok);
    }
    if exists|i: int|
        0 <= i < n && entry_walk(#[trigger] list[i], prefix, patterns) is Ok && entry_walk(
            list[i],
            prefix,
            patterns,
        )->Ok_0.files.contains(f) {
        let i = choose|i: int|
            0 <= i < n && entry_walk(#[trigger] list[i], prefix, patterns) is Ok && entry_walk(
                list[i],
                prefix,
                patterns,
            )->Ok_0.files.contains(f);
        assert(raw.contains(raw[i]));
        assert(vs.contains(raw[i]));
        let k = choose|k: int| 0 <= k < vs.len() && vs[k] == raw[i];
        assert(vs[k].outcome->Ok_0.files.contains(f));
    }
}

/// A file that no rule leaves out is found.
proof fn lemma_found(
    list: Vec<FoundEntry>,
    prefix: Seq<char>,
    path: Seq<Seq<char>>,
    patterns: Seq<PatternView>,
    f: WorkFileView,
)
    requires
        plain_entries(list, list@.len()),
        distinct_names(list),
        list_walk(list, prefix, patterns) is Ok,
        is_on_path(list, prefix, path, patterns, f),
    ensures
        list_walk(list, prefix, patterns)->Ok_0.files.contains(f),
    decreases path.len(),
{
    let name = path[0];
    let rel = path_below(prefix, name);
    let n = list@.len();
    lemma_entry_at(list, n, name);
    let e = entry_at(list, n, name)->0;
    let i = choose|i: int| 0 <= i < n && #[trigger] list[i] == e;
    lemma_list_files(list, prefix, patterns, f);
    assert(entry_walk(list[i], prefix, patterns) is Ok);
    lemma_left_out(name, rel, e.found is Dir, patterns);
    let t = entry_walk(e, prefix, patterns)->Ok_0;
    if path.len() == 1 {
        assert(path_of(rel, path.drop_first()) == rel);
        assert(t.files =~= seq![f]);
        assert(t.files[0] == f);
    } else {
        let sub = e.found->Dir_0->Ok_0;
        crate::survey::lemma_plain_at(list, n, i);
        assert(t == list_walk(sub, rel, patterns)->Ok_0);
        lemma_found(sub, rel, path.drop_first(), patterns, f);
    }
    assert(t.files.contains(f));
}

/// A file that is found is there, and no rule leaves it out.
proof fn lemma_found_is_there(
    list: Vec<FoundEntry>,
    prefix: Seq<char>,
    patterns: Seq<PatternView>,
    f: WorkFileView,
) -> (path: Seq<Seq<char>>)
    requires
        plain_entries(list, list@.len()),
        distinct_names(list),
        list_walk(list, prefix, patterns) is Ok,
        list_walk(list, prefix, patterns)->Ok_0.files.contains(f),
    ensures
        is_on_path(list, prefix, path, patterns, f),
    decreases list,
{
    let n = list@.len();
    lemma_list_files(list, prefix, patterns, f);
    let i = choose|i: int|
        0 <= i < n && entry_walk(#[trigger] list[i], prefix, patterns) is Ok && entry_walk(
            list[i],
            prefix,
            patterns,
        )->Ok_0.files.contains(f);
    let e = list[i];
    let name = e.name@;
    let rel = path_below(prefix, name);
    let t = entry_walk(e, prefix, patterns)->Ok_0;
    lemma_entry_at(list, n, name);
    assert(list[i].name@ == name);
    assert(entry_at(list, n, name) == Some(e));
    lemma_left_out(name, rel, e.found is Dir, patterns);
    let what = visit_of(name, rel, e.found is Link, e.found is Dir, patterns);
    if what == Visit::Take {
        let path = seq![name];
        assert(path.drop_first() =~= Seq::<Seq<char>>::empty());
        assert(path_of(rel, path.drop_first()) == rel);
        let k = choose|k: int| 0 <= k < t.files.len() && t.files[k] == f;
        assert(t.files.len() == 1);
        path
    } else {
        let sub = e.found->Dir_0->Ok_0;
        crate::survey::lemma_plain_at(list, n, i);
        assert(t == list_walk(sub, rel, patterns)->Ok_0);
        let rest = lemma_found_is_there(sub, rel, patterns, f);
        let path = seq![name] + rest;
        assert(path.drop_first() =~= rest);
        assert(path[0] == name);
        path
    }
}

/// A walk finds exactly the files of the working tree that no rule leaves out:
/// a file is found, with its exec bit, exactly where a path of names leads to it
/// through directories and neither it nor any of them has a name that is always
/// skipped or excluded by default, or a path that a pattern matches.
pub proof fn law_walk_finds_every_file(
    list: Vec<FoundEntry>,
    patterns: Seq<PatternView>,
    f: WorkFileView,
)
    requires
        walked(Ok(list), patterns) is Ok,
        plain_entries(list, list@.len()),
        distinct_names(list),
    ensures
        ({
            let (files, _) = walked(Ok(list), patterns)->Ok_0;
            files.contains(f) <==> exists|path: Seq<Seq<char>>| #[trigger]
                is_on_path(list, Seq::empty(), path, patterns, f)
        }),
{
    let none = Seq::<char>::empty();
    let t = list_walk(list, none, patterns)->Ok_0;
    let (files, _) = walked(Ok(list), patterns)->Ok_0;
    law_sorted_by(t.files, |f: WorkFileView| f.rel);
    if files.contains(f) {
        let path = lemma_found_is_there(list, none, patterns, f);
        assert(is_on_path(list, none, path, patterns, f));
    }
    if exists|path: Seq<Seq<char>>| #[trigger] is_on_path(list, none, path, patterns, f) {
        let path = choose|path: Seq<Seq<char>>| #[trigger]
            is_on_path(list, none, path, patterns, f);
        lemma_found(list, none, path, patterns, f);
    }
}

} // verus!
