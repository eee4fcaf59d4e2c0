//! The integrity check of a store: every object rehashes to its own name,
//! every turn resolves to a snapshot, and every snapshot's tree and parent are
//! present.

use vstd::hash_map::StringHashMap;
use vstd::prelude::*;

use crate::decimal::{decimal, numeral};
use crate::object::{
    decoded, entry_views, fetched, parse_encoded, parse_snapshot, parse_tree, parsed_snapshot,
    parsed_tree, read, tag_of, Kind, Objects, Snapshot, SnapshotView, TreeEntryView,
};
use crate::order::{law_sorted_by, lemma_sorted_map, picked, sorted_by, sorted_places, Keyed};
use crate::sha1::{hex, sha1_hex};
use crate::store::{Store, StoreView};
use crate::text::{owned_texts, same};

verus! {

/// What an object file holds.
pub struct ObjectFileView {
    pub name: Seq<char>,
    pub data: Result<Seq<u8>, Seq<char>>,
}

/// A file in a directory under `objects`: its name, and its bytes or the reason
/// why they cannot be read.
#[derive(Debug)]
pub struct ObjectFile {
    pub name: String,
    pub data: Result<Vec<u8>, String>,
}

impl View for ObjectFile {
    type V = ObjectFileView;

    open spec fn view(&self) -> ObjectFileView {
        ObjectFileView {
            name: self.name@,
            data: match self.data {
                Ok(bytes) => Ok(bytes@),
                Err(e) => Err(e@),
            },
        }
    }
}

impl Keyed for ObjectFile {
    open spec fn key(&self) -> Seq<char> {
        self.name@
    }

    fn key_text(&self) -> (r: &str) {
        self.name.as_str()
    }
}

/// What a directory of object files holds.
pub struct FanView {
    pub name: Seq<char>,
    pub files: Seq<ObjectFileView>,
}

/// A directory under `objects`: its name and its files.
#[derive(Debug)]
pub struct FanDir {
    pub name: String,
    pub files: Vec<ObjectFile>,
}

impl View for FanDir {
    type V = FanView;

    open spec fn view(&self) -> FanView {
        FanView { name: self.name@, files: object_views(self.files@) }
    }
}

impl Keyed for FanDir {
    open spec fn key(&self) -> Seq<char> {
        self.name@
    }

    fn key_text(&self) -> (r: &str) {
        self.name.as_str()
    }
}

/// The contents of a list of object files.
pub open spec fn object_views(list: Seq<ObjectFile>) -> Seq<ObjectFileView> {
    list.map_values(|f: ObjectFile| f@)
}

/// The contents of a list of directories.
pub open spec fn fan_views(list: Seq<FanDir>) -> Seq<FanView> {
    list.map_values(|f: FanDir| f@)
}

/// An object file under the id that it is named after: the name of its
/// directory, then its own.
pub struct NamedView {
    pub id: Seq<char>,
    pub data: Result<Seq<u8>, Seq<char>>,
}

/// The files of one directory, in the order of their names.
pub open spec fn fan_objects(fan: FanView) -> Seq<NamedView> {
    sorted_by(fan.files, |f: ObjectFileView| f.name).map_values(
        |f: ObjectFileView| NamedView { id: fan.name + f.name, data: f.data },
    )
}

/// The files of the first `n` directories.
pub open spec fn fans_objects(fans: Seq<FanView>, n: nat) -> Seq<NamedView>
    decreases n,
{
    if n == 0 || n > fans.len() {
        Seq::empty()
    } else {
        fans_objects(fans, (n - 1) as nat) + fan_objects(fans[n - 1])
    }
}

/// All object files, in the order of their directories, and of their names in
/// each.
pub open spec fn listed(fans: Seq<FanView>) -> Seq<NamedView> {
    fans_objects(sorted_by(fans, |f: FanView| f.name), fans.len())
}

/// What the first pass has found: how many objects of each kind, the kind of
/// each, the ids of the snapshots in order, and what is wrong.
pub struct Findings {
    pub blobs: nat,
    pub trees: nat,
    pub snapshots: nat,
    pub kinds: Map<Seq<char>, Kind>,
    pub records: Seq<Seq<char>>,
    pub problems: Seq<Seq<char>>,
}

/// The findings with one more object file.
pub open spec fn rehashed_one(before: Findings, f: NamedView) -> Findings {
    match f.data {
        Err(e) => Findings {
            problems: before.problems.push("cannot read object "@ + f.id + ": "@ + e),
            ..before
        },
        Ok(data) => if sha1_hex(data) != f.id {
            Findings {
                problems: before.problems.push(
                    "object "@ + f.id + " is corrupt (content hash mismatch)"@,
                ),
                ..before
            }
        } else {
            match decoded(f.id, data) {
                Err(e) => Findings { problems: before.problems.push(e), ..before },
                Ok((kind, _)) => Findings {
                    blobs: before.blobs + if kind == Kind::Blob {
                        1nat
                    } else {
                        0
                    },
                    trees: before.trees + if kind == Kind::Tree {
                        1nat
                    } else {
                        0
                    },
                    snapshots: before.snapshots + if kind == Kind::Snapshot {
                        1nat
                    } else {
                        0
                    },
                    kinds: before.kinds.insert(f.id, kind),
                    records: if kind == Kind::Snapshot {
                        before.records.push(f.id)
                    } else {
                        before.records
                    },
                    ..before
                },
            }
        },
    }
}

/// The findings on the first `n` object files.
pub open spec fn rehashed(files: Seq<NamedView>, n: nat) -> Findings
    decreases n,
{
    if n == 0 || n > files.len() {
        Findings {
            blobs: 0,
            trees: 0,
            snapshots: 0,
            kinds: Map::empty(),
            records: Seq::empty(),
            problems: Seq::empty(),
        }
    } else {
        rehashed_one(rehashed(files, (n - 1) as nat), files[n - 1])
    }
}

/// The object is known to be of the kind.
pub open spec fn known(kinds: Map<Seq<char>, Kind>, id: Seq<char>, kind: Kind) -> bool {
    kinds.contains_key(id) && kinds[id] == kind
}

/// `"turn {n}"`
pub open spec fn turn_text(turn: u64) -> Seq<char> {
    "turn "@ + numeral(turn as nat)
}

/// `"snapshot {id}"`
pub open spec fn record_text(id: Seq<char>) -> Seq<char> {
    "snapshot "@ + id
}

/// What is wrong with a tree and everything below it, on behalf of `who`.
pub open spec fn tree_problems(
    objects: Map<Seq<char>, Seq<u8>>,
    kinds: Map<Seq<char>, Kind>,
    tree: Seq<char>,
    who: Seq<char>,
    depth: nat,
) -> Seq<Seq<char>>
    decreases depth, 0nat,
{
    if !known(kinds, tree, Kind::Tree) {
        seq![who + " references missing tree "@ + tree]
    } else {
        match fetched(objects, tree) {
            Err(_) => seq![who + " tree "@ + tree + " is unreadable"@],
            Ok((_, payload)) => match parsed_tree(payload) {
                Err(e) => seq![who + ": "@ + e],
                Ok(entries) => if depth == 0 {
                    seq![who + " tree "@ + tree + " is nested too deeply"@]
                } else {
                    entry_problems(
                        objects,
                        kinds,
                        entries,
                        entries.len(),
                        who,
                        (depth - 1) as nat,
                    )
                },
            },
        }
    }
}

/// What is wrong with the first `n` entries of a tree.
pub open spec fn entry_problems(
    objects: Map<Seq<char>, Seq<u8>>,
    kinds: Map<Seq<char>, Kind>,
    entries: Seq<TreeEntryView>,
    n: nat,
    who: Seq<char>,
    depth: nat,
) -> Seq<Seq<char>>
    decreases depth, n,
{
    if n == 0 || n > entries.len() {
        Seq::empty()
    } else {
        let before = entry_problems(objects, kinds, entries, (n - 1) as nat, who, depth);
        let e = entries[n - 1];
        if e.is_dir() {
            before + tree_problems(objects, kinds, e.id, who, depth)
        } else if !known(kinds, e.id, Kind::Blob) {
            before.push(
                who + " references missing blob "@ + e.id + " ("@ + e.name + ")"@,
            )
        } else {
            before
        }
    }
}

/// What is wrong with a snapshot record, on behalf of `who`: its parent is
/// missing, or its tree is incomplete.
pub open spec fn record_problems(
    objects: Map<Seq<char>, Seq<u8>>,
    kinds: Map<Seq<char>, Kind>,
    who: Seq<char>,
    snap: SnapshotView,
) -> Seq<Seq<char>> {
    let below = tree_problems(objects, kinds, snap.tree, who, objects.len());
    match snap.parent {
        Some(parent) if !known(kinds, parent, Kind::Snapshot) => seq![
            who + " parent "@ + parent + " is missing"@,
        ] + below,
        _ => below,
    }
}

/// What is wrong with a turn, or why the check cannot go on.
pub open spec fn turn_problems(s: StoreView, kinds: Map<Seq<char>, Kind>, turn: u64) -> Result<
    Seq<Seq<char>>,
    Seq<char>,
> {
    match s.turn_id(turn) {
        Err(e) => Err(e),
        Ok(id) => if !kinds.contains_key(id) {
            Ok(seq![turn_text(turn) + " points at missing object "@ + id])
        } else if kinds[id] != Kind::Snapshot {
            Ok(seq![turn_text(turn) + " points at a "@ + tag_of(kinds[id]) + " object"@])
        } else {
            match s.snapshot(turn) {
                Err(e) => Ok(seq![e]),
                Ok(snap) => Ok(record_problems(s.objects, kinds, turn_text(turn), snap)),
            }
        },
    }
}

/// What is wrong with the first `n` turns.
pub open spec fn ref_problems(
    s: StoreView,
    kinds: Map<Seq<char>, Kind>,
    turns: Seq<u64>,
    n: nat,
) -> Result<Seq<Seq<char>>, Seq<char>>
    decreases n,
{
    if n == 0 || n > turns.len() {
        Ok(Seq::empty())
    } else {
        match ref_problems(s, kinds, turns, (n - 1) as nat) {
            Err(e) => Err(e),
            Ok(before) => match turn_problems(s, kinds, turns[n - 1]) {
                Err(e) => Err(e),
                Ok(more) => Ok(before + more),
            },
        }
    }
}

/// Some turn resolves to the object.
pub open spec fn is_named(s: StoreView, id: Seq<char>) -> bool {
    exists|i: int|
        0 <= i < s.turns().len() && s.turn_id(#[trigger] s.turns()[i]) == Ok::<
            Seq<char>,
            Seq<char>,
        >(id)
}

/// What is wrong with a snapshot object.
pub open spec fn snapshot_problems(
    objects: Map<Seq<char>, Seq<u8>>,
    kinds: Map<Seq<char>, Kind>,
    id: Seq<char>,
) -> Seq<Seq<char>> {
    match fetched(objects, id) {
        Err(e) => seq![e],
        Ok((_, payload)) => match parsed_snapshot(id, payload) {
            Err(e) => seq![e],
            Ok(snap) => record_problems(objects, kinds, record_text(id), snap),
        },
    }
}

/// What is wrong with those of the first `n` snapshots that no turn resolves
/// to.
pub open spec fn loose_problems(
    s: StoreView,
    kinds: Map<Seq<char>, Kind>,
    records: Seq<Seq<char>>,
    n: nat,
) -> Seq<Seq<char>>
    decreases n,
{
    if n == 0 || n > records.len() {
        Seq::empty()
    } else {
        let before = loose_problems(s, kinds, records, (n - 1) as nat);
        let id = records[n - 1];
        if known(kinds, id, Kind::Snapshot) && !is_named(s, id) {
            before + snapshot_problems(s.objects, kinds, id)
        } else {
            before
        }
    }
}

/// What a report says.
pub struct ReportView {
    pub blobs: nat,
    pub trees: nat,
    pub snapshots: nat,
    pub refs: nat,
    pub problems: Seq<Seq<char>>,
}

/// The report on a store whose object directories are `fans`.
pub open spec fn store_report(s: StoreView, fans: Seq<FanView>) -> Result<ReportView, Seq<char>> {
    let found = rehashed(listed(fans), listed(fans).len());
    let turns = s.turns();
    match ref_problems(s, found.kinds, turns, turns.len()) {
        Err(e) => Err(e),
        Ok(more) => Ok(
            ReportView {
                blobs: found.blobs,
                trees: found.trees,
                snapshots: found.snapshots,
                refs: turns.len(),
                problems: found.problems + more + loose_problems(
                    s,
                    found.kinds,
                    found.records,
                    found.records.len(),
                ),
            },
        ),
    }
}

/// Outcome of a full store integrity check.
#[derive(Debug)]
pub struct VerifyReport {
    pub blobs: usize,
    pub trees: usize,
    pub snapshots: usize,
    pub refs: usize,
    pub problems: Vec<String>,
}

impl Default for VerifyReport {
    fn default() -> (r: Self)
        ensures
            r@ == (ReportView { blobs: 0, trees: 0, snapshots: 0, refs: 0, problems: Seq::empty() }),
    {
        let r = VerifyReport { blobs: 0, trees: 0, snapshots: 0, refs: 0, problems: Vec::new() };
        assert(owned_texts(r.problems@) =~= Seq::<Seq<char>>::empty());
        r
    }
}

impl View for VerifyReport {
    type V = ReportView;

    open spec fn view(&self) -> ReportView {
        ReportView {
            blobs: self.blobs as nat,
            trees: self.trees as nat,
            snapshots: self.snapshots as nat,
            refs: self.refs as nat,
            problems: owned_texts(self.problems@),
        }
    }
}

impl VerifyReport {
    /// How many sound objects there are.
    pub fn total(&self) -> (r: usize)
        requires
            self.blobs + self.trees + self.snapshots <= usize::MAX,
        ensures
            r == self.blobs + self.trees + self.snapshots,
    {
        self.blobs + self.trees + self.snapshots
    }
}

fn report_problem(problems: &mut Vec<String>, text: String)
    ensures
        owned_texts(final(problems)@) == owned_texts(old(problems)@).push(text@),
{
    problems.push(text);
    assert(owned_texts(problems@) =~= owned_texts(old(problems)@).push(text@));
}

/// What the first pass has found so far.
struct Pass {
    report: VerifyReport,
    kinds: StringHashMap<Kind>,
    records: Vec<String>,
}

impl Pass {
    spec fn found(self) -> Findings {
        Findings {
            blobs: self.report.blobs as nat,
            trees: self.report.trees as nat,
            snapshots: self.report.snapshots as nat,
            kinds: self.kinds@,
            records: owned_texts(self.records@),
            problems: owned_texts(self.report.problems@),
        }
    }
}

/// Take one more object file in.
fn rehash(pass: &mut Pass, fan: &str, f: &ObjectFile)
    requires
        old(pass).report.blobs < usize::MAX,
        old(pass).report.trees < usize::MAX,
        old(pass).report.snapshots < usize::MAX,
    ensures
        final(pass).found() == rehashed_one(
            old(pass).found(),
            NamedView { id: fan@ + f.name@, data: f@.data },
        ),
        final(pass).report.refs == old(pass).report.refs,
{
    let mut id = fan.to_owned();
    id.append(f.name.as_str());
    match &f.data {
        Err(e) => {
            let mut text = "cannot read object ".to_string();
            text.append(id.as_str());
            text.append(": ");
            text.append(e.as_str());
            report_problem(&mut pass.report.problems, text);
        },
        Ok(data) => {
            let digest = hex(data.as_slice());
            if !same(digest.as_str(), id.as_str()) {
                let mut text = "object ".to_string();
                text.append(id.as_str());
                text.append(" is corrupt (content hash mismatch)");
                report_problem(&mut pass.report.problems, text);
            } else {
                match parse_encoded(id.as_str(), data.as_slice()) {
                    Ok((kind, _)) => {
                        match kind {
                            Kind::Blob => {
                                pass.report.blobs = pass.report.blobs + 1;
                            },
                            Kind::Tree => {
                                pass.report.trees = pass.report.trees + 1;
                            },
                            Kind::Snapshot => {
                                pass.report.snapshots = pass.report.snapshots + 1;
                                let ghost before = pass.records@;
                                pass.records.push(id.clone());
                                assert(owned_texts(pass.records@) =~= owned_texts(before).push(id@));
                            },
                        }
                        pass.kinds.insert(id, kind);
                    },
                    Err(e) => {
                        report_problem(&mut pass.report.problems, e);
                    },
                }
            }
        },
    }
}

proof fn lemma_rehashed_counts(files: Seq<NamedView>, n: nat)
    requires
        n <= files.len(),
    ensures
        rehashed(files, n).blobs + rehashed(files, n).trees + rehashed(files, n).snapshots <= n,
        rehashed(files, n).blobs <= n,
        rehashed(files, n).trees <= n,
        rehashed(files, n).snapshots <= n,
    decreases n,
{
    if n > 0 {
        lemma_rehashed_counts(files, (n - 1) as nat);
    }
}

proof fn lemma_rehashed_prefix(files: Seq<NamedView>, more: Seq<NamedView>, n: nat)
    requires
        n <= files.len(),
    ensures
        rehashed(files + more, n) == rehashed(files, n),
    decreases n,
{
    if n > 0 {
        lemma_rehashed_prefix(files, more, (n - 1) as nat);
        assert((files + more)[n - 1] == files[n - 1]);
    }
}

proof fn lemma_fans_prefix(fans: Seq<FanView>, n: nat, m: nat)
    requires
        n <= m <= fans.len(),
    ensures
        fans_objects(fans, n).is_prefix_of(fans_objects(fans, m)),
    decreases m,
{
    let a = fans_objects(fans, n);
    let b = fans_objects(fans, m);
    if n < m {
        lemma_fans_prefix(fans, n, (m - 1) as nat);
        let c = fans_objects(fans, (m - 1) as nat);
        assert(a =~= b.subrange(0, a.len() as int)) by {
            assert(a =~= c.subrange(0, a.len() as int));
        }
    } else {
        assert(a =~= b.subrange(0, a.len() as int));
    }
}

/// Take the files of one directory in.
fn rehash_fan(pass: &mut Pass, fan: &FanDir, Ghost(done): Ghost<Seq<NamedView>>)
    requires
        old(pass).found() == rehashed(done, done.len()),
        done.len() + fan.files@.len() <= usize::MAX,
    ensures
        final(pass).found() == rehashed(
            done + fan_objects(fan@),
            (done + fan_objects(fan@)).len(),
        ),
        final(pass).report.refs == old(pass).report.refs,
{
    let order = sorted_places(&fan.files);
    let ghost here = fan_objects(fan@);
    let ghost whole = done + here;
    proof {
        lemma_sorted_map(
            fan.files@,
            |f: ObjectFile| f.key(),
            |f: ObjectFile| f@,
            |f: ObjectFileView| f.name,
        );
        law_sorted_by(fan@.files, |f: ObjectFileView| f.name);
        lemma_rehashed_prefix(done, here, done.len());
    }
    let mut i: usize = 0;
    while i < order.len()
        invariant
            i <= order@.len(),
            order@.len() == fan.files@.len(),
            here == fan_objects(fan@),
            here.len() == order@.len(),
            whole == done + here,
            done.len() + fan.files@.len() <= usize::MAX,
            forall|k: int| 0 <= k < order@.len() ==> #[trigger] order@[k] < fan.files@.len(),
            picked(fan.files@, order@).map_values(|f: ObjectFile| f@) == sorted_by(
                fan@.files,
                |f: ObjectFileView| f.name,
            ),
            pass.found() == rehashed(whole, (done.len() + i) as nat),
            pass.report.refs == old(pass).report.refs,
        decreases order@.len() - i,
    {
        let f = &fan.files[order[i]];
        proof {
            lemma_rehashed_counts(whole, (done.len() + i) as nat);
            let sorted = picked(fan.files@, order@).map_values(|f: ObjectFile| f@);
            assert(sorted[i as int] == f@);
            assert(whole[done.len() + i] == here[i as int]);
            assert(here[i as int] == NamedView { id: fan.name@ + f.name@, data: f@.data });
        }
        rehash(pass, fan.name.as_str(), f);
        i = i + 1;
    }
}

/// The first pass: every object file must rehash to its own name.
fn rehash_all(fans: &Vec<FanDir>) -> (pass: Pass)
    requires
        listed(fan_views(fans@)).len() <= usize::MAX,
    ensures
        pass.found() == rehashed(listed(fan_views(fans@)), listed(fan_views(fans@)).len()),
        pass.report.refs == 0,
{
    let ghost views = fan_views(fans@);
    let ghost sorted = sorted_by(views, |f: FanView| f.name);
    let order = sorted_places(fans);
    proof {
        lemma_sorted_map(fans@, |f: FanDir| f.key(), |f: FanDir| f@, |f: FanView| f.name);
        law_sorted_by(views, |f: FanView| f.name);
    }
    let mut pass = Pass {
        report: VerifyReport::default(),
        kinds: StringHashMap::new(),
        records: Vec::new(),
    };
    let mut i: usize = 0;
    assert(owned_texts(pass.records@) =~= Seq::<Seq<char>>::empty());
    assert(pass.found() == rehashed(Seq::empty(), 0));
    while i < order.len()
        invariant
            i <= order@.len(),
            order@.len() == fans@.len(),
            views == fan_views(fans@),
            sorted == sorted_by(views, |f: FanView| f.name),
            sorted.len() == fans@.len(),
            listed(views).len() <= usize::MAX,
            forall|k: int| 0 <= k < order@.len() ==> #[trigger] order@[k] < fans@.len(),
            picked(fans@, order@).map_values(|f: FanDir| f@) == sorted,
            pass.found() == rehashed(
                fans_objects(sorted, i as nat),
                fans_objects(sorted, i as nat).len(),
            ),
            pass.report.refs == 0,
        decreases order@.len() - i,
    {
        let fan = &fans[order[i]];
        let ghost done = fans_objects(sorted, i as nat);
        proof {
            assert(picked(fans@, order@).map_values(|f: FanDir| f@)[i as int] == fan@);
            lemma_fans_prefix(sorted, (i + 1) as nat, sorted.len());
            law_sorted_by(fan@.files, |f: ObjectFileView| f.name);
            assert(fan_objects(fan@).len() == fan.files@.len());
        }
        rehash_fan(&mut pass, fan, Ghost(done));
        i = i + 1;
    }
    pass
}

/// Whether the object is known to be of the kind.
fn is_known(kinds: &StringHashMap<Kind>, id: &str, kind: Kind) -> (r: bool)
    ensures
        r == known(kinds@, id@, kind),
{
    match kinds.get(id) {
        Some(k) => *k == kind,
        None => false,
    }
}

/// `"{who}{what}"`
fn about(who: &str, what: &str) -> (r: String)
    ensures
        r@ == who@ + what@,
{
    let mut s = who.to_owned();
    s.append(what);
    s
}

fn check_tree(
    objects: &Objects,
    kinds: &StringHashMap<Kind>,
    tree: &str,
    who: &str,
    depth: usize,
    problems: &mut Vec<String>,
)
    ensures
        owned_texts(final(problems)@) == owned_texts(old(problems)@) + tree_problems(
            objects@,
            kinds@,
            tree@,
            who@,
            depth as nat,
        ),
    decreases depth,
{
    let ghost start = owned_texts(problems@);
    if !is_known(kinds, tree, Kind::Tree) {
        let mut text = about(who, " references missing tree ");
        text.append(tree);
        report_problem(problems, text);
        assert(start.push(text@) =~= start + seq![text@]);
        return;
    }
    let payload = match read(objects, tree) {
        Ok((_, payload)) => payload,
        Err(_) => {
            let mut text = about(who, " tree ");
            text.append(tree);
            text.append(" is unreadable");
            report_problem(problems, text);
            assert(start.push(text@) =~= start + seq![text@]);
            return;
        },
    };
    let entries = match parse_tree(payload.as_slice()) {
        Ok(entries) => entries,
        Err(e) => {
            let mut text = about(who, ": ");
            text.append(e.as_str());
            report_problem(problems, text);
            assert(start.push(text@) =~= start + seq![text@]);
            return;
        },
    };
    if depth == 0 {
        let mut text = about(who, " tree ");
        text.append(tree);
        text.append(" is nested too deeply");
        report_problem(problems, text);
        assert(start.push(text@) =~= start + seq![text@]);
        return;
    }
    let ghost views = entry_views(entries@);
    let ghost d = (depth - 1) as nat;
    let mut i: usize = 0;
    assert(start + Seq::<Seq<char>>::empty() =~= start);
    while i < entries.len()
        invariant
            i <= entries@.len(),
            views == entry_views(entries@),
            depth > 0,
            d == depth - 1,
            owned_texts(problems@) == start + entry_problems(
                objects@,
                kinds@,
                views,
                i as nat,
                who@,
                d,
            ),
        decreases entries@.len() - i,
    {
        let e = &entries[i];
        assert(views[i as int] == e@);
        let ghost before = entry_problems(objects@, kinds@, views, i as nat, who@, d);
        if e.is_dir() {
            check_tree(objects, kinds, e.id.as_str(), who, depth - 1, problems);
            assert(start + before + tree_problems(objects@, kinds@, e.id@, who@, d) =~= start + (
            before + tree_problems(objects@, kinds@, e.id@, who@, d)));
        } else if !is_known(kinds, e.id.as_str(), Kind::Blob) {
            let mut text = about(who, " references missing blob ");
            text.append(e.id.as_str());
            text.append(" (");
            text.append(e.name.as_str());
            text.append(")");
            report_problem(problems, text);
            assert((start + before).push(text@) =~= start + before.push(text@));
        }
        i = i + 1;
    }
}

/// Check a snapshot record: its parent exists, its tree is complete.
fn check_record(
    objects: &Objects,
    kinds: &StringHashMap<Kind>,
    who: &str,
    snap: &Snapshot,
    problems: &mut Vec<String>,
)
    ensures
        owned_texts(final(problems)@) == owned_texts(old(problems)@) + record_problems(
            objects@,
            kinds@,
            who@,
            snap@,
        ),
{
    let ghost start = owned_texts(problems@);
    let ghost mut mid = start;
    match &snap.parent {
        Some(parent) => {
            if !is_known(kinds, parent.as_str(), Kind::Snapshot) {
                let mut text = about(who, " parent ");
                text.append(parent.as_str());
                text.append(" is missing");
                report_problem(problems, text);
                proof {
                    mid = start + seq![text@];
                    assert(start.push(text@) =~= mid);
                }
            }
        },
        None => {},
    }
    check_tree(objects, kinds, snap.tree.as_str(), who, objects.count(), problems);
    proof {
        let below = tree_problems(objects@, kinds@, snap.tree@, who@, objects@.len());
        assert(owned_texts(problems@) == mid + below);
        assert(mid + below =~= start + record_problems(objects@, kinds@, who@, snap@));
    }
}

/// Check a snapshot object that no turn resolves to.
fn check_loose(
    objects: &Objects,
    kinds: &StringHashMap<Kind>,
    id: &str,
    problems: &mut Vec<String>,
)
    ensures
        owned_texts(final(problems)@) == owned_texts(old(problems)@) + snapshot_problems(
            objects@,
            kinds@,
            id@,
        ),
{
    let ghost start = owned_texts(problems@);
    let payload = match read(objects, id) {
        Ok((_, payload)) => payload,
        Err(e) => {
            let ghost text = e@;
            report_problem(problems, e);
            assert(start.push(text) =~= start + seq![text]);
            return;
        },
    };
    match parse_snapshot(id, payload.as_slice()) {
        Ok(snap) => {
            let who = about("snapshot ", id);
            check_record(objects, kinds, who.as_str(), &snap, problems);
        },
        Err(e) => {
            let ghost text = e@;
            report_problem(problems, e);
            assert(start.push(text) =~= start + seq![text]);
        },
    }
}

/// Check one turn: its ref resolves, its parent exists, its tree is complete.
/// Returns the id that the ref holds.
fn check_turn(
    store: &Store,
    kinds: &StringHashMap<Kind>,
    turn: u64,
    problems: &mut Vec<String>,
) -> (r: Result<String, String>)
    ensures
        match r {
            Ok(id) => store@.turn_id(turn) == Ok::<Seq<char>, Seq<char>>(id@) && match turn_problems(
                store@,
                kinds@,
                turn,
            ) {
                Ok(more) => owned_texts(final(problems)@) == owned_texts(old(problems)@) + more,
                Err(_) => false,
            },
            Err(e) => turn_problems(store@, kinds@, turn) == Err::<Seq<Seq<char>>, Seq<char>>(e@),
        },
{
    let ghost start = owned_texts(problems@);
    let id = store.turn_id(turn)?;
    let number = decimal(turn);
    let who = about("turn ", number.as_str());
    match kinds.get(id.as_str()) {
        None => {
            let mut text = about(who.as_str(), " points at missing object ");
            text.append(id.as_str());
            report_problem(problems, text);
            assert(start.push(text@) =~= start + seq![text@]);
            return Ok(id);
        },
        Some(kind) => {
            if *kind != Kind::Snapshot {
                let mut text = about(who.as_str(), " points at a ");
                text.append(kind.tag());
                text.append(" object");
                report_problem(problems, text);
                assert(start.push(text@) =~= start + seq![text@]);
                return Ok(id);
            }
        },
    }
    match store.snapshot(turn) {
        Ok(snap) => {
            check_record(store.objects(), kinds, who.as_str(), &snap, problems);
        },
        Err(e) => {
            let ghost text = e@;
            report_problem(problems, e);
            assert(start.push(text) =~= start + seq![text]);
        },
    }
    Ok(id)
}

proof fn lemma_ref_error(s: StoreView, kinds: Map<Seq<char>, Kind>, turns: Seq<u64>, n: nat, m: nat)
    requires
        n <= m <= turns.len(),
        ref_problems(s, kinds, turns, n) is Err,
    ensures
        ref_problems(s, kinds, turns, m) == ref_problems(s, kinds, turns, n),
    decreases m,
{
    if n < m {
        lemma_ref_error(s, kinds, turns, n, (m - 1) as nat);
    }
}

/// Rehash every object, check that every turn ref resolves to a snapshot, and
/// that the whole tree and the parent of every snapshot are present, whether or
/// not a turn resolves to it. Deterministic order.
pub fn verify(store: &Store, fans: &Vec<FanDir>) -> (r: Result<VerifyReport, String>)
    requires
        listed(fan_views(fans@)).len() <= usize::MAX,
    ensures
        match r {
            Ok(report) => store_report(store@, fan_views(fans@)) == Ok::<ReportView, Seq<char>>(
                report@,
            ),
            Err(e) => store_report(store@, fan_views(fans@)) == Err::<ReportView, Seq<char>>(e@),
        },
{
    let pass = rehash_all(fans);
    let ghost found = pass.found();
    let kinds = pass.kinds;
    let records = pass.records;
    let mut report = pass.report;
    let mut named: StringHashMap<u64> = StringHashMap::new();
    let turns = store.turns();
    let ghost first = owned_texts(report.problems@);
    let mut i: usize = 0;
    assert(first + Seq::<Seq<char>>::empty() =~= first);
    while i < turns.len()
        invariant
            i <= turns@.len(),
            turns@ == store@.turns(),
            found == rehashed(listed(fan_views(fans@)), listed(fan_views(fans@)).len()),
            found.kinds == kinds@,
            found.problems == first,
            report.blobs == found.blobs,
            report.trees == found.trees,
            report.snapshots == found.snapshots,
            report.refs == i,
            match ref_problems(store@, kinds@, turns@, i as nat) {
                Ok(more) => owned_texts(report.problems@) == first + more,
                Err(_) => false,
            },
            forall|id: Seq<char>| #[trigger]
                named@.contains_key(id) <==> exists|k: int|
                    0 <= k < i && store@.turn_id(#[trigger] turns@[k]) == Ok::<
                        Seq<char>,
                        Seq<char>,
                    >(id),
        decreases turns@.len() - i,
    {
        let ghost seen = named@;
        report.refs = report.refs + 1;
        let ghost more = ref_problems(store@, kinds@, turns@, i as nat)->Ok_0;
        match check_turn(store, &kinds, turns[i], &mut report.problems) {
            Ok(id) => {
                let ghost key = id@;
                named.insert(id, turns[i]);
                proof {
                    let here = turn_problems(store@, kinds@, turns@[i as int])->Ok_0;
                    assert(first + more + here =~= first + (more + here));
                    assert forall|id: Seq<char>| #[trigger] named@.contains_key(id) <==> exists|
                        k: int,
                    |
                        0 <= k < i + 1 && store@.turn_id(#[trigger] turns@[k]) == Ok::<
                            Seq<char>,
                            Seq<char>,
                        >(id) by {
                        if id == key {
                            assert(store@.turn_id(turns@[i as int]) == Ok::<Seq<char>, Seq<char>>(
                                id,
                            ));
                        } else {
                            assert(named@.contains_key(id) <==> seen.contains_key(id));
                        }
                    }
                }
            },
            Err(e) => {
                proof {
                    lemma_ref_error(store@, kinds@, turns@, (i + 1) as nat, turns@.len());
                }
                return Err(e);
            },
        }
        i = i + 1;
    }
    let ghost more = ref_problems(store@, kinds@, turns@, turns@.len())->Ok_0;
    let ghost rv = owned_texts(records@);
    let mut j: usize = 0;
    assert(first + more + Seq::<Seq<char>>::empty() =~= first + more);
    while j < records.len()
        invariant
            j <= records@.len(),
            rv == owned_texts(records@),
            report.blobs == found.blobs,
            report.trees == found.trees,
            report.snapshots == found.snapshots,
            report.refs == store@.turns().len(),
            forall|id: Seq<char>| #[trigger] named@.contains_key(id) <==> is_named(store@, id),
            owned_texts(report.problems@) == first + more + loose_problems(
                store@,
                kinds@,
                rv,
                j as nat,
            ),
        decreases records@.len() - j,
    {
        let id = records[j].as_str();
        assert(rv[j as int] == id@);
        let ghost before = loose_problems(store@, kinds@, rv, j as nat);
        if is_known(&kinds, id, Kind::Snapshot) && !named.contains_key(id) {
            check_loose(store.objects(), &kinds, id, &mut report.problems);
            proof {
                let here = snapshot_problems(store@.objects, kinds@, id@);
                assert(first + more + before + here =~= first + more + (before + here));
            }
        }
        j = j + 1;
    }
    Ok(report)
}

/// A tree whose object is known, readable and well formed, whose files are
/// known blobs, and whose directories are such trees as well.
pub open spec fn tree_complete(
    objects: Map<Seq<char>, Seq<u8>>,
    kinds: Map<Seq<char>, Kind>,
    tree: Seq<char>,
    depth: nat,
) -> bool
    decreases depth,
{
    &&& known(kinds, tree, Kind::Tree)
    &&& fetched(objects, tree) is Ok
    &&& parsed_tree(fetched(objects, tree)->Ok_0.1) is Ok
    &&& depth > 0
    &&& forall|i: int|
        0 <= i < parsed_tree(fetched(objects, tree)->Ok_0.1)->Ok_0.len() ==> {
            let e = #[trigger] parsed_tree(fetched(objects, tree)->Ok_0.1)->Ok_0[i];
            if e.is_dir() {
                tree_complete(objects, kinds, e.id, (depth - 1) as nat)
            } else {
                known(kinds, e.id, Kind::Blob)
            }
        }
}

proof fn lemma_entry_problems(
    objects: Map<Seq<char>, Seq<u8>>,
    kinds: Map<Seq<char>, Kind>,
    entries: Seq<TreeEntryView>,
    n: nat,
    who: Seq<char>,
    depth: nat,
)
    requires
        n <= entries.len(),
    ensures
        entry_problems(objects, kinds, entries, n, who, depth).len() == 0 <==> forall|i: int|
            0 <= i < n ==> {
                let e = #[trigger] entries[i];
                if e.is_dir() {
                    tree_complete(objects, kinds, e.id, depth)
                } else {
                    known(kinds, e.id, Kind::Blob)
                }
            },
    decreases depth, n,
{
    if n > 0 {
        lemma_entry_problems(objects, kinds, entries, (n - 1) as nat, who, depth);
        let e = entries[n - 1];
        if e.is_dir() {
            lemma_tree_problems(objects, kinds, e.id, who, depth);
        }
        let before = entry_problems(objects, kinds, entries, (n - 1) as nat, who, depth);
        if before.len() == 0 {
            assert(forall|i: int|
                0 <= i < n - 1 ==> {
                    let e = #[trigger] entries[i];
                    if e.is_dir() {
                        tree_complete(objects, kinds, e.id, depth)
                    } else {
                        known(kinds, e.id, Kind::Blob)
                    }
                });
        }
    }
}

proof fn lemma_tree_problems(
    objects: Map<Seq<char>, Seq<u8>>,
    kinds: Map<Seq<char>, Kind>,
    tree: Seq<char>,
    who: Seq<char>,
    depth: nat,
)
    ensures
        tree_problems(objects, kinds, tree, who, depth).len() == 0 <==> tree_complete(
            objects,
            kinds,
            tree,
            depth,
        ),
    decreases depth, 0nat,
{
    if known(kinds, tree, Kind::Tree) && fetched(objects, tree) is Ok && parsed_tree(
        fetched(objects, tree)->Ok_0.1,
    ) is Ok && depth > 0 {
        let entries = parsed_tree(fetched(objects, tree)->Ok_0.1)->Ok_0;
        lemma_entry_problems(objects, kinds, entries, entries.len(), who, (depth - 1) as nat);
    }
}

/// An object file that is what its name says.
pub open spec fn object_sound(f: NamedView) -> bool {
    f.data matches Ok(data) && sha1_hex(data) == f.id && decoded(f.id, data) is Ok
}

/// A record with a parent that exists, if it names one, and a complete tree.
pub open spec fn record_sound(
    objects: Map<Seq<char>, Seq<u8>>,
    kinds: Map<Seq<char>, Kind>,
    snap: SnapshotView,
) -> bool {
    &&& snap.parent matches Some(p) ==> known(kinds, p, Kind::Snapshot)
    &&& tree_complete(objects, kinds, snap.tree, objects.len())
}

/// A snapshot object whose record can be read and is sound.
pub open spec fn snapshot_sound(
    objects: Map<Seq<char>, Seq<u8>>,
    kinds: Map<Seq<char>, Kind>,
    id: Seq<char>,
) -> bool {
    &&& fetched(objects, id) is Ok
    &&& parsed_snapshot(id, fetched(objects, id)->Ok_0.1) is Ok
    &&& record_sound(objects, kinds, parsed_snapshot(id, fetched(objects, id)->Ok_0.1)->Ok_0)
}

/// A turn that resolves to a snapshot whose record can be read and is sound.
pub open spec fn turn_sound(s: StoreView, kinds: Map<Seq<char>, Kind>, turn: u64) -> bool {
    &&& s.turn_id(turn) is Ok
    &&& known(kinds, s.turn_id(turn)->Ok_0, Kind::Snapshot)
    &&& s.snapshot(turn) is Ok
    &&& record_sound(s.objects, kinds, s.snapshot(turn)->Ok_0)
}

proof fn lemma_rehashed_clean(files: Seq<NamedView>, n: nat)
    requires
        n <= files.len(),
    ensures
        rehashed(files, n).problems.len() == 0 <==> forall|i: int|
            0 <= i < n ==> object_sound(#[trigger] files[i]),
    decreases n,
{
    if n > 0 {
        lemma_rehashed_clean(files, (n - 1) as nat);
    }
}

proof fn lemma_record_clean(
    objects: Map<Seq<char>, Seq<u8>>,
    kinds: Map<Seq<char>, Kind>,
    who: Seq<char>,
    snap: SnapshotView,
)
    ensures
        record_problems(objects, kinds, who, snap).len() == 0 <==> record_sound(
            objects,
            kinds,
            snap,
        ),
{
    lemma_tree_problems(objects, kinds, snap.tree, who, objects.len());
}

proof fn lemma_turn_clean(s: StoreView, kinds: Map<Seq<char>, Kind>, turn: u64)
    requires
        turn_problems(s, kinds, turn) is Ok,
    ensures
        turn_problems(s, kinds, turn)->Ok_0.len() == 0 <==> turn_sound(s, kinds, turn),
{
    if let Ok(snap) = s.snapshot(turn) {
        lemma_record_clean(s.objects, kinds, turn_text(turn), snap);
    }
}

/// Every snapshot that is known is among the records.
pub(crate) proof fn lemma_known_records(files: Seq<NamedView>, n: nat, id: Seq<char>)
    requires
        n <= files.len(),
        known(rehashed(files, n).kinds, id, Kind::Snapshot),
    ensures
        rehashed(files, n).records.contains(id),
    decreases n,
{
    let m = (n - 1) as nat;
    let f = files[m as int];
    let before = rehashed(files, m);
    let after = rehashed(files, n);
    if after.records != before.records {
        assert(after.records.last() == f.id);
        assert(after.records.drop_last() =~= before.records);
    }
    if known(before.kinds, id, Kind::Snapshot) {
        lemma_known_records(files, m, id);
        let k = choose|k: int| 0 <= k < before.records.len() && before.records[k] == id;
        assert(after.records[k] == id);
    } else {
        assert(id == f.id);
        assert(after.records[after.records.len() - 1] == id);
    }
}

proof fn lemma_loose_clean(
    s: StoreView,
    kinds: Map<Seq<char>, Kind>,
    records: Seq<Seq<char>>,
    n: nat,
)
    requires
        n <= records.len(),
    ensures
        loose_problems(s, kinds, records, n).len() == 0 <==> forall|i: int|
            0 <= i < n && known(kinds, #[trigger] records[i], Kind::Snapshot) && !is_named(
                s,
                records[i],
            ) ==> snapshot_sound(s.objects, kinds, records[i]),
    decreases n,
{
    if n > 0 {
        lemma_loose_clean(s, kinds, records, (n - 1) as nat);
        let id = records[n - 1];
        if let Ok((_, payload)) = fetched(s.objects, id) {
            if let Ok(snap) = parsed_snapshot(id, payload) {
                lemma_record_clean(s.objects, kinds, record_text(id), snap);
            }
        }
    }
}

proof fn lemma_refs_clean(s: StoreView, kinds: Map<Seq<char>, Kind>, turns: Seq<u64>, n: nat)
    requires
        n <= turns.len(),
        ref_problems(s, kinds, turns, n) is Ok,
    ensures
        ref_problems(s, kinds, turns, n)->Ok_0.len() == 0 <==> forall|i: int|
            0 <= i < n ==> turn_sound(s, kinds, #[trigger] turns[i]),
    decreases n,
{
    if n > 0 {
        lemma_refs_clean(s, kinds, turns, (n - 1) as nat);
        lemma_turn_clean(s, kinds, turns[n - 1]);
    }
}

/// A report is free of problems exactly where every object file is what its
/// name says, every turn resolves to a snapshot, and every snapshot's tree and
/// parent are there, whether or not a turn resolves to it.
pub proof fn law_clean_report_means_sound_store(s: StoreView, fans: Seq<FanView>)
    requires
        store_report(s, fans) is Ok,
    ensures
        store_report(s, fans)->Ok_0.problems.len() == 0 <==> {
            let files = listed(fans);
            let kinds = rehashed(files, files.len()).kinds;
            &&& forall|i: int| 0 <= i < files.len() ==> object_sound(#[trigger] files[i])
            &&& forall|i: int|
                0 <= i < s.turns().len() ==> turn_sound(s, kinds, #[trigger] s.turns()[i])
            &&& forall|id: Seq<char>| #[trigger]
                known(kinds, id, Kind::Snapshot) ==> snapshot_sound(s.objects, kinds, id)
        },
{
    let files = listed(fans);
    let found = rehashed(files, files.len());
    let kinds = found.kinds;
    let records = found.records;
    lemma_rehashed_clean(files, files.len());
    lemma_refs_clean(s, kinds, s.turns(), s.turns().len());
    lemma_loose_clean(s, kinds, records, records.len());
    if store_report(s, fans)->Ok_0.problems.len() == 0 {
        assert forall|id: Seq<char>| #[trigger] known(kinds, id, Kind::Snapshot) implies
            snapshot_sound(s.objects, kinds, id) by {
            lemma_known_records(files, files.len(), id);
            let k = choose|k: int| 0 <= k < records.len() && records[k] == id;
            assert(known(kinds, records[k], Kind::Snapshot));
            if is_named(s, id) {
                let i = choose|i: int|
                    0 <= i < s.turns().len() && s.turn_id(#[trigger] s.turns()[i]) == Ok::<
                        Seq<char>,
                        Seq<char>,
                    >(id);
                assert(turn_sound(s, kinds, s.turns()[i]));
            }
        }
    }
}

/// A report counts no more objects than there are files.
pub proof fn lemma_report_counts(s: StoreView, fans: Seq<FanView>)
    ensures
        store_report(s, fans) matches Ok(rep) ==> rep.blobs + rep.trees + rep.snapshots <= listed(
            fans,
        ).len(),
{
    lemma_rehashed_counts(listed(fans), listed(fans).len());
}

} // verus!
