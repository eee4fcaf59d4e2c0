//! What a walk counts and where it fails: links and what is left out are counted
//! at every depth, and what cannot be read is never passed over.

use vstd::prelude::*;

use crate::finding::left_out;
use crate::glob::PatternView;
use crate::order::{law_sorted_by, placed, sorted_by, text_before};
use crate::snapshot::path_below;
use crate::walker::{
    entry_walk, first_bad_name, list_walk, summed, visits, walked, Found, FoundEntry, Visited,
};

verus! {

/// Something at the entry, or below it, cannot be recorded: it could not be looked
/// at, its directory could not be listed, or a name in there holds a newline.
/// What is skipped or left out does not matter.
pub open spec fn trouble_at(e: FoundEntry, prefix: Seq<char>, patterns: Seq<PatternView>) -> bool
    decreases e, 0nat,
{
    let rel = path_below(prefix, e.name@);
    if e.name@ == ".snapref"@ || e.name@ == ".git"@ {
        false
    } else {
        match e.found {
            Found::Unknown(_) => true,
            Found::Link => false,
            Found::File { .. } => false,
            Found::Dir(r) => !left_out(e.name@, rel, true, patterns) && match r {
                Err(_) => true,
                Ok(list) => trouble_among(list, list@.len(), rel, patterns),
            },
        }
    }
}

/// Something among the first `n` entries of a directory cannot be recorded.
pub open spec fn trouble_among(
    list: Vec<FoundEntry>,
    n: nat,
    prefix: Seq<char>,
    patterns: Seq<PatternView>,
) -> bool
    decreases list, n,
{
    if n == 0 || n > list@.len() {
        false
    } else {
        trouble_among(list, (n - 1) as nat, prefix, patterns) || list[n - 1].name@.contains('\n')
            || trouble_at(list[n - 1], prefix, patterns)
    }
}

/// How many links, and how many entries that are left out, a walk meets at the
/// entry and below it.
pub open spec fn met_at(e: FoundEntry, prefix: Seq<char>, patterns: Seq<PatternView>) -> (nat, nat)
    decreases e, 0nat,
{
    let rel = path_below(prefix, e.name@);
    if e.name@ == ".snapref"@ || e.name@ == ".git"@ {
        (0, 0)
    } else if e.found is Link {
        (1, 0)
    } else if left_out(e.name@, rel, e.found is Dir, patterns) {
        (0, 1)
    } else {
        match e.found {
            Found::Dir(Ok(list)) => met_among(list, list@.len(), rel, patterns),
            _ => (0, 0),
        }
    }
}

/// How many links, and how many entries that are left out, a walk meets among the
/// first `n` entries of a directory.
pub open spec fn met_among(
    list: Vec<FoundEntry>,
    n: nat,
    prefix: Seq<char>,
    patterns: Seq<PatternView>,
) -> (nat, nat)
    decreases list, n,
{
    if n == 0 || n > list@.len() {
        (0, 0)
    } else {
        let before = met_among(list, (n - 1) as nat, prefix, patterns);
        let here = met_at(list[n - 1], prefix, patterns);
        (before.0 + here.0, before.1 + here.1)
    }
}

spec fn met(v: Visited) -> (nat, nat) {
    match v.outcome {
        Ok(t) => (t.links, t.excluded),
        Err(_) => (0, 0),
    }
}

spec fn total_met(vs: Seq<Visited>) -> (nat, nat)
    decreases vs.len(),
{
    if vs.len() == 0 {
        (0, 0)
    } else {
        let before = total_met(vs.drop_last());
        (before.0 + met(vs.last()).0, before.1 + met(vs.last()).1)
    }
}

proof fn lemma_total_placed(sorted: Seq<Visited>, v: Visited, key: spec_fn(Visited) -> Seq<char>)
    ensures
        total_met(placed(sorted, v, key)).0 == total_met(sorted).0 + met(v).0,
        total_met(placed(sorted, v, key)).1 == total_met(sorted).1 + met(v).1,
    decreases sorted.len(),
{
    let out = placed(sorted, v, key);
    if sorted.len() == 0 || !text_before(key(v), key(sorted.last())) {
        assert(out.drop_last() =~= sorted);
    } else {
        lemma_total_placed(sorted.drop_last(), v, key);
        assert(out.drop_last() =~= placed(sorted.drop_last(), v, key));
        assert(out.last() == sorted.last());
    }
}

proof fn lemma_total_sorted(vs: Seq<Visited>, key: spec_fn(Visited) -> Seq<char>)
    ensures
        total_met(sorted_by(vs, key)) == total_met(vs),
    decreases vs.len(),
{
    if vs.len() > 0 {
        lemma_total_sorted(vs.drop_last(), key);
        lemma_total_placed(sorted_by(vs.drop_last(), key), vs.last(), key);
    }
}

proof fn lemma_summed(vs: Seq<Visited>, n: nat)
    requires
        n <= vs.len(),
    ensures
        summed(vs, n) is Err <==> exists|i: int| 0 <= i < n && (#[trigger] vs[i]).outcome is Err,
        summed(vs, n) matches Ok(t) ==> (t.links, t.excluded) == total_met(vs.take(n as int)),
    decreases n,
{
    if n > 0 {
        lemma_summed(vs, (n - 1) as nat);
        assert(vs.take(n as int).drop_last() =~= vs.take(n - 1));
        assert(vs.take(n as int).last() == vs[n - 1]);
        if summed(vs, n) is Err {
            if summed(vs, (n - 1) as nat) is Err {
                let i = choose|i: int| 0 <= i < n - 1 && (#[trigger] vs[i]).outcome is Err;
                assert(vs[i].outcome is Err);
            } else {
                assert(vs[n - 1].outcome is Err);
            }
        }
        if exists|i: int| 0 <= i < n && (#[trigger] vs[i]).outcome is Err {
            let i = choose|i: int| 0 <= i < n && (#[trigger] vs[i]).outcome is Err;
            if i < n - 1 {
                assert(vs[i].outcome is Err);
            }
        }
    } else {
        assert(vs.take(0).len() == 0);
    }
}

proof fn lemma_bad_name(list: Seq<FoundEntry>, n: int)
    requires
        0 <= n <= list.len(),
    ensures
        first_bad_name(list, n) is Some <==> exists|i: int|
            n <= i < list.len() && (#[trigger] list[i]).name@.contains('\n'),
    decreases list.len() - n,
{
    if n < list.len() {
        lemma_bad_name(list, n + 1);
        if list[n].name@.contains('\n') {
        } else if first_bad_name(list, n + 1) is Some {
            let i = choose|i: int| n + 1 <= i < list.len() && (#[trigger] list[i]).name@.contains(
                '\n',
            );
            assert(list[i].name@.contains('\n'));
        } else if exists|i: int| n <= i < list.len() && (#[trigger] list[i]).name@.contains('\n') {
            let i = choose|i: int| n <= i < list.len() && (#[trigger] list[i]).name@.contains('\n');
            assert(n + 1 <= i);
        }
    }
}

proof fn lemma_trouble_among(
    list: Vec<FoundEntry>,
    n: nat,
    prefix: Seq<char>,
    patterns: Seq<PatternView>,
)
    requires
        n <= list@.len(),
    ensures
        trouble_among(list, n, prefix, patterns) <==> exists|i: int|
            0 <= i < n && ((#[trigger] list@[i]).name@.contains('\n') || trouble_at(
                list@[i],
                prefix,
                patterns,
            )),
    decreases n,
{
    if n > 0 {
        lemma_trouble_among(list, (n - 1) as nat, prefix, patterns);
        let last = list@[n - 1];
        if trouble_among(list, n, prefix, patterns) {
            if trouble_among(list, (n - 1) as nat, prefix, patterns) {
                let i = choose|i: int|
                    0 <= i < n - 1 && ((#[trigger] list@[i]).name@.contains('\n') || trouble_at(
                        list@[i],
                        prefix,
                        patterns,
                    ));
                assert(list@[i].name@.contains('\n') || trouble_at(list@[i], prefix, patterns));
            } else {
                assert(last.name@.contains('\n') || trouble_at(last, prefix, patterns));
            }
        }
        if exists|i: int|
            0 <= i < n && ((#[trigger] list@[i]).name@.contains('\n') || trouble_at(
                list@[i],
                prefix,
                patterns,
            )) {
            let i = choose|i: int|
                0 <= i < n && ((#[trigger] list@[i]).name@.contains('\n') || trouble_at(
                    list@[i],
                    prefix,
                    patterns,
                ));
            if i < n - 1 {
                assert(list@[i].name@.contains('\n') || trouble_at(list@[i], prefix, patterns));
            }
        }
    }
}

/// What walking an entry comes to.
proof fn lemma_entry(e: FoundEntry, prefix: Seq<char>, patterns: Seq<PatternView>)
    ensures
        entry_walk(e, prefix, patterns) is Err <==> trouble_at(e, prefix, patterns),
        entry_walk(e, prefix, patterns) matches Ok(t) ==> (t.links, t.excluded) == met_at(
            e,
            prefix,
            patterns,
        ),
    decreases e, 1nat,
{
    let rel = path_below(prefix, e.name@);
    match e.found {
        Found::Dir(Ok(list)) => {
            if !left_out(e.name@, rel, true, patterns) {
                lemma_list(list, rel, patterns);
            }
        },
        _ => {},
    }
}

proof fn lemma_visit_outcomes(
    list: Vec<FoundEntry>,
    n: nat,
    prefix: Seq<char>,
    patterns: Seq<PatternView>,
)
    requires
        n <= list@.len(),
    ensures
        visits(list, n, prefix, patterns).len() == n,
        forall|i: int|
            0 <= i < n ==> ((#[trigger] visits(list, n, prefix, patterns)[i]).outcome is Err
                <==> trouble_at(list@[i], prefix, patterns)),
        (forall|i: int| 0 <= i < n ==> !trouble_at(#[trigger] list@[i], prefix, patterns))
            ==> total_met(visits(list, n, prefix, patterns)) == met_among(
            list,
            n,
            prefix,
            patterns,
        ),
    decreases list, n,
{
    if n > 0 {
        lemma_visit_outcomes(list, (n - 1) as nat, prefix, patterns);
        lemma_entry(list[n - 1], prefix, patterns);
        let all = visits(list, n, prefix, patterns);
        let before = visits(list, (n - 1) as nat, prefix, patterns);
        assert(all.drop_last() =~= before);
        assert forall|i: int| 0 <= i < n implies ((#[trigger] all[i]).outcome is Err <==> trouble_at(
            list@[i],
            prefix,
            patterns,
        )) by {
            if i < n - 1 {
                assert(all[i] == before[i]);
            }
        }
    }
}

proof fn lemma_list(list: Vec<FoundEntry>, prefix: Seq<char>, patterns: Seq<PatternView>)
    ensures
        list_walk(list, prefix, patterns) is Err <==> trouble_among(
            list,
            list@.len(),
            prefix,
            patterns,
        ),
        list_walk(list, prefix, patterns) matches Ok(t) ==> (t.links, t.excluded) == met_among(
            list,
            list@.len(),
            prefix,
            patterns,
        ),
    decreases list, list@.len() + 1,
{
    let n = list@.len();
    let key = |v: Visited| v.name;
    let vs = visits(list, n, prefix, patterns);
    let sorted = sorted_by(vs, key);
    lemma_visit_outcomes(list, n, prefix, patterns);
    lemma_bad_name(list@, 0);
    lemma_trouble_among(list, n, prefix, patterns);
    law_sorted_by(vs, key);
    lemma_total_sorted(vs, key);
    lemma_summed(sorted, n);
    assert(sorted.take(n as int) =~= sorted);
    if first_bad_name(list@, 0) is Some {
        let i = choose|i: int| 0 <= i < list@.len() && (#[trigger] list@[i]).name@.contains('\n');
        assert(list@[i].name@.contains('\n') || trouble_at(list@[i], prefix, patterns));
    } else if summed(sorted, n) is Err {
        let i = choose|i: int| 0 <= i < n && (#[trigger] sorted[i]).outcome is Err;
        assert(sorted.contains(sorted[i]));
        let k = choose|k: int| 0 <= k < vs.len() && vs[k] == sorted[i];
        assert(vs[k].outcome is Err);
        assert(list@[k].name@.contains('\n') || trouble_at(list@[k], prefix, patterns));
    } else {
        assert forall|i: int| 0 <= i < n implies !trouble_at(#[trigger] list@[i], prefix, patterns)
            && !list@[i].name@.contains('\n') by {
            if trouble_at(list@[i], prefix, patterns) {
                assert(vs[i].outcome is Err);
                assert(vs.contains(vs[i]));
                assert(sorted.contains(vs[i]));
                let k = choose|k: int| 0 <= k < sorted.len() && sorted[k] == vs[i];
                assert(sorted[k].outcome is Err);
            }
        }
    }
}

/// A walk fails exactly where something that it has to look at cannot be recorded;
/// otherwise it counts every link that it meets and every entry that it leaves
/// out, at every depth.
pub proof fn law_walk_counts_what_it_leaves_out(list: Vec<FoundEntry>, patterns: Seq<PatternView>)
    ensures
        walked(Ok(list), patterns) is Err <==> trouble_among(
            list,
            list@.len(),
            Seq::empty(),
            patterns,
        ),
        walked(Ok(list), patterns) matches Ok((_, stats)) ==> {
            let (links, excluded) = met_among(list, list@.len(), Seq::empty(), patterns);
            &&& links <= usize::MAX ==> stats.symlinks == links
            &&& excluded <= usize::MAX ==> stats.excluded == excluded
        },
{
    lemma_list(list, Seq::empty(), patterns);
}

} // verus!
