//! Line → turn attribution engine.
//!
//! The algorithm is the classic incremental blame: start from the oldest
//! version of a file (every line belongs to that turn), then for each newer
//! version diff old→new; lines the diff marks equal keep their attribution,
//! inserted lines are charged to the newer version's origin. The result
//! answers "which turn wrote this exact line?" for the newest version.

use vstd::prelude::*;

use crate::decimal::{decimal, numeral};
use crate::diff::{
    binary, diff_ops, is_binary, law_line_script_is_shortest, line_script, split_lines, Op,
};
use crate::order::law_ascending;
use crate::script::{fits, new_total, old_span, old_total};
use crate::snapshot::{file_at, snapshot_file};
use crate::store::{ref_numbers, Store, StoreView};
use crate::text::{lines_of, lossy_text, same, texts, utf8_lossy};

verus! {

/// Where a line came from: a recorded turn, or the live working tree.
#[derive(Debug, Clone, Copy, PartialEq, Eq, Structural)]
pub enum Origin {
    Turn(u64),
    Working,
}

/// What an attributed line says.
pub struct BlameView {
    pub origin: Origin,
    pub line: nat,
    pub text: Seq<char>,
}

/// One attributed line of the newest version.
#[derive(Debug)]
pub struct BlameLine {
    pub origin: Origin,
    /// 1-based line number in the newest version.
    pub line: usize,
    pub text: String,
}

impl View for BlameLine {
    type V = BlameView;

    open spec fn view(&self) -> BlameView {
        BlameView { origin: self.origin, line: self.line as nat, text: self.text@ }
    }
}

impl Clone for BlameLine {
    fn clone(&self) -> (r: Self)
        ensures
            r@ == self@,
    {
        BlameLine { origin: self.origin, line: self.line, text: self.text.clone() }
    }
}

impl PartialEq for BlameLine {
    fn eq(&self, other: &Self) -> (r: bool) {
        self.origin == other.origin && self.line == other.line && same(
            self.text.as_str(),
            other.text.as_str(),
        )
    }
}

impl vstd::std_specs::cmp::PartialEqSpecImpl for BlameLine {
    open spec fn obeys_eq_spec() -> bool {
        true
    }

    open spec fn eq_spec(&self, other: &Self) -> bool {
        self.origin == other.origin && self.line == other.line && self.text@ == other.text@
    }
}

impl Eq for BlameLine {

}

/// The contents of a list of versions.
pub open spec fn version_views(list: Seq<(Origin, String)>) -> Seq<(Origin, Seq<char>)> {
    list.map_values(|v: (Origin, String)| (v.0, v.1@))
}

/// The contents of a list of attributed lines.
pub open spec fn blame_views(list: Seq<BlameLine>) -> Seq<BlameView> {
    list.map_values(|b: BlameLine| b@)
}

/// The attribution after a script was applied: equal lines keep theirs,
/// inserted lines are charged to `origin`.
pub open spec fn carried(attr: Seq<Origin>, ops: Seq<Op>, origin: Origin) -> Seq<Origin>
    decreases ops.len(),
{
    if ops.len() == 0 {
        Seq::empty()
    } else {
        let before = carried(attr, ops.drop_last(), origin);
        let x = old_total(ops.drop_last()) as int;
        match ops.last() {
            Op::Equal(n) => before + attr.subrange(x, x + n),
            Op::Del(_) => before,
            Op::Ins(n) => before + Seq::new(n as nat, |i: int| origin),
        }
    }
}

/// The attribution of the lines of version `n - 1`.
pub open spec fn attribution(versions: Seq<(Origin, Seq<char>)>, n: nat) -> Seq<Origin>
    decreases n,
{
    if n == 0 {
        Seq::empty()
    } else if n == 1 {
        Seq::new(lines_of(versions[0].1).len(), |i: int| versions[0].0)
    } else {
        carried(
            attribution(versions, (n - 1) as nat),
            line_script(lines_of(versions[n - 2].1), lines_of(versions[n - 1].1)),
            versions[n - 1].0,
        )
    }
}

/// Every line of the newest version with its origin.
pub open spec fn attributed(versions: Seq<(Origin, Seq<char>)>) -> Seq<BlameView> {
    let attr = attribution(versions, versions.len());
    let lines = lines_of(versions.last().1);
    Seq::new(
        lines.len(),
        |i: int| BlameView { origin: attr[i], line: (i + 1) as nat, text: lines[i] },
    )
}

proof fn lemma_carried_len<T>(
    attr: Seq<Origin>,
    ops: Seq<Op>,
    origin: Origin,
    a: Seq<T>,
    b: Seq<T>,
)
    requires
        fits(ops, a, b),
        attr.len() == a.len(),
    ensures
        carried(attr, ops, origin).len() == new_total(ops),
        old_total(ops) <= a.len(),
    decreases ops.len(),
{
    if ops.len() > 0 {
        lemma_carried_len(attr, ops.drop_last(), origin, a, b);
    }
}

/// Every line of a version has an origin.
pub proof fn law_every_line_has_an_origin(versions: Seq<(Origin, Seq<char>)>, n: nat)
    requires
        0 < n <= versions.len(),
        forall|i: int|
            0 <= i < versions.len() ==> lines_of((#[trigger] versions[i]).1).len() <= usize::MAX,
    ensures
        attribution(versions, n).len() == lines_of(versions[n - 1].1).len(),
    decreases n,
{
    if n > 1 {
        law_every_line_has_an_origin(versions, (n - 1) as nat);
        let a = lines_of(versions[n - 2].1);
        let b = lines_of(versions[n - 1].1);
        assert(lines_of(versions[n - 2].1).len() <= usize::MAX);
        assert(lines_of(versions[n - 1].1).len() <= usize::MAX);
        law_line_script_is_shortest(a, b);
        lemma_carried_len(
            attribution(versions, (n - 1) as nat),
            line_script(a, b),
            versions[n - 1].0,
            a,
            b,
        );
    }
}

/// A line has the text that some version with its origin has.
pub open spec fn written_by(
    versions: Seq<(Origin, Seq<char>)>,
    n: nat,
    origin: Origin,
    text: Seq<char>,
) -> bool {
    exists|k: int|
        0 <= k < n && (#[trigger] versions[k]).0 == origin && lines_of(versions[k].1).contains(
            text,
        )
}

proof fn lemma_carried_origins(
    versions: Seq<(Origin, Seq<char>)>,
    n: nat,
    attr: Seq<Origin>,
    ops: Seq<Op>,
    a: Seq<Seq<char>>,
    b: Seq<Seq<char>>,
)
    requires
        0 < n <= versions.len(),
        fits(ops, a, b),
        attr.len() == a.len(),
        b == lines_of(versions[n - 1].1),
        forall|i: int| 0 <= i < a.len() ==> written_by(versions, n, attr[i], #[trigger] a[i]),
    ensures
        carried(attr, ops, versions[n - 1].0).len() == new_total(ops),
        new_total(ops) <= b.len(),
        forall|i: int|
            0 <= i < new_total(ops) ==> written_by(
                versions,
                n,
                carried(attr, ops, versions[n - 1].0)[i],
                #[trigger] b[i],
            ),
    decreases ops.len(),
{
    let origin = versions[n - 1].0;
    if ops.len() > 0 {
        let done = ops.drop_last();
        lemma_carried_origins(versions, n, attr, done, a, b);
        lemma_carried_len(attr, done, origin, a, b);
        let x = old_total(done);
        let y = new_total(done);
        let out = carried(attr, ops, origin);
        assert forall|i: int| 0 <= i < new_total(ops) implies written_by(
            versions,
            n,
            out[i],
            #[trigger] b[i],
        ) by {
            if i < y {
                assert(out[i] == carried(attr, done, origin)[i]);
            } else {
                match ops.last() {
                    Op::Equal(k) => {
                        let j = i - y + x;
                        assert(a[j] == b[j - x + y]);
                        assert(out[i] == attr[j]);
                        assert(written_by(versions, n, attr[j], a[j]));
                    },
                    Op::Ins(k) => {
                        assert(out[i] == origin);
                        assert(lines_of(versions[n - 1].1)[i] == b[i]);
                        assert(lines_of(versions[n - 1].1).contains(b[i]));
                    },
                    Op::Del(k) => {},
                }
            }
        }
    }
}

/// Every line is charged to a version that has a line with the same text.
pub proof fn law_origin_has_the_line(versions: Seq<(Origin, Seq<char>)>, n: nat)
    requires
        0 < n <= versions.len(),
        forall|i: int|
            0 <= i < versions.len() ==> lines_of((#[trigger] versions[i]).1).len() <= usize::MAX,
    ensures
        attribution(versions, n).len() == lines_of(versions[n - 1].1).len(),
        forall|i: int|
            0 <= i < lines_of(versions[n - 1].1).len() ==> written_by(
                versions,
                n,
                attribution(versions, n)[i],
                #[trigger] lines_of(versions[n - 1].1)[i],
            ),
    decreases n,
{
    law_every_line_has_an_origin(versions, n);
    let b = lines_of(versions[n - 1].1);
    if n == 1 {
        assert forall|i: int| 0 <= i < b.len() implies written_by(
            versions,
            n,
            attribution(versions, n)[i],
            #[trigger] b[i],
        ) by {
            assert(versions[0].0 == attribution(versions, n)[i]);
            assert(b.contains(b[i]));
        }
    } else {
        let m = (n - 1) as nat;
        law_origin_has_the_line(versions, m);
        let a = lines_of(versions[n - 2].1);
        let attr = attribution(versions, m);
        assert(lines_of(versions[n - 2].1).len() <= usize::MAX);
        assert(lines_of(versions[n - 1].1).len() <= usize::MAX);
        law_line_script_is_shortest(a, b);
        assert forall|i: int| 0 <= i < a.len() implies written_by(
            versions,
            n,
            attr[i],
            #[trigger] a[i],
        ) by {
            assert(written_by(versions, m, attr[i], a[i]));
            let k = choose|k: int|
                0 <= k < m && (#[trigger] versions[k]).0 == attr[i] && lines_of(
                    versions[k].1,
                ).contains(a[i]);
            assert(versions[k].0 == attr[i]);
        }
        lemma_carried_origins(versions, n, attr, line_script(a, b), a, b);
    }
}

/// The attribution of the next version.
fn carry(attr: &Vec<Origin>, ops: &Vec<Op>, origin: Origin) -> (r: Vec<Origin>)
    requires
        old_total(ops@) == attr@.len(),
    ensures
        r@ == carried(attr@, ops@, origin),
{
    let end: usize = attr.len();
    let mut out: Vec<Origin> = Vec::new();
    let mut ai: usize = 0;
    let mut k: usize = 0;
    assert(ops@.take(0) =~= Seq::<Op>::empty());
    while k < ops.len()
        invariant
            k <= ops@.len(),
            old_total(ops@) == attr@.len(),
            end == attr@.len(),
            ai == old_total(ops@.take(k as int)),
            out@ == carried(attr@, ops@.take(k as int), origin),
        decreases ops@.len() - k,
    {
        let op = ops[k];
        let ghost before = out@;
        let ghost x = ai as int;
        proof {
            assert(ops@.take(k + 1).drop_last() =~= ops@.take(k as int));
            assert(ops@ =~= ops@.take(k + 1) + ops@.skip(k + 1));
            crate::myers::lemma_totals_concat(ops@.take(k + 1), ops@.skip(k + 1));
            assert(x + old_span(op) <= end);
        }
        match op {
            Op::Equal(n) => {
                let mut i: usize = 0;
                assert(before + attr@.subrange(x, x) =~= before);
                while i < n
                    invariant
                        i <= n,
                        0 <= x,
                        ai == x + i,
                        x + n <= end,
                        end == attr@.len(),
                        out@ == before + attr@.subrange(x, x + i),
                    decreases n - i,
                {
                    out.push(attr[ai]);
                    ai = ai + 1;
                    i = i + 1;
                    assert(out@ =~= before + attr@.subrange(x, x + i));
                }
            },
            Op::Del(n) => {
                ai = ai + n;
            },
            Op::Ins(n) => {
                let mut i: usize = 0;
                assert(before + Seq::new(0nat, |i: int| origin) =~= before);
                while i < n
                    invariant
                        i <= n,
                        out@ == before + Seq::new(i as nat, |i: int| origin),
                    decreases n - i,
                {
                    out.push(origin);
                    i = i + 1;
                    assert(out@ =~= before + Seq::new(i as nat, |i: int| origin));
                }
            },
        }
        k = k + 1;
    }
    assert(ops@.take(ops@.len() as int) =~= ops@);
    out
}

/// Attribute every line of the newest version, given the distinct versions
/// of a file oldest→newest. There must be at least one version (callers verify
/// the file has history first).
pub fn attribute(versions: &[(Origin, String)]) -> (r: Vec<BlameLine>)
    requires
        versions@.len() > 0,
    ensures
        blame_views(r@) == attributed(version_views(versions@)),
        forall|i: int|
            0 <= i < r@.len() ==> written_by(
                version_views(versions@),
                versions@.len(),
                (#[trigger] r@[i]).origin,
                r@[i].text@,
            ),
{
    let ghost v = version_views(versions@);
    let (mut lines, _) = split_lines(versions[0].1.as_str());
    assert(texts(lines@).len() == lines.len());
    assert(v[0] == (versions@[0].0, versions@[0].1@));
    assert(texts(lines@).len() == lines@.len());
    let mut attr: Vec<Origin> = Vec::new();
    while attr.len() < lines.len()
        invariant
            versions@.len() > 0,
            attr@.len() <= lines@.len(),
            forall|i: int| 0 <= i < attr@.len() ==> #[trigger] attr@[i] == versions@[0].0,
        decreases lines@.len() - attr@.len(),
    {
        attr.push(versions[0].0);
    }
    assert(attr@ =~= attribution(v, 1));
    let mut k: usize = 1;
    while k < versions.len()
        invariant
            1 <= k <= versions@.len(),
            v == version_views(versions@),
            attr@ == attribution(v, k as nat),
            attr@.len() == lines@.len(),
            texts(lines@) == lines_of(v[k - 1].1),
            forall|i: int| 0 <= i < k ==> lines_of((#[trigger] v[i]).1).len() <= usize::MAX,
        decreases versions@.len() - k,
    {
        let (next, _) = split_lines(versions[k].1.as_str());
        assert(texts(next@).len() == next.len());
        assert(v[k as int] == (versions@[k as int].0, versions@[k as int].1@));
        let ops = diff_ops(lines.as_slice(), next.as_slice());
        proof {
            assert(texts(lines@).len() == lines@.len());
            assert(texts(next@).len() == next@.len());
            lemma_carried_len(attr@, ops@, versions@[k as int].0, texts(lines@), texts(next@));
        }
        attr = carry(&attr, &ops, versions[k].0);
        lines = next;
        k = k + 1;
    }
    let mut out: Vec<BlameLine> = Vec::new();
    let mut i: usize = 0;
    while i < lines.len()
        invariant
            i <= lines@.len(),
            attr@.len() == lines@.len(),
            v.len() > 0,
            attr@ == attribution(v, v.len()),
            texts(lines@) == lines_of(v.last().1),
            out@.len() == i,
            forall|j: int| 0 <= j < i ==> (#[trigger] out@[j])@ == attributed(v)[j],
        decreases lines@.len() - i,
    {
        assert(texts(lines@)[i as int] == lines@[i as int]@);
        out.push(BlameLine { origin: attr[i], line: i + 1, text: lines[i].to_owned() });
        i = i + 1;
    }
    proof {
        assert(blame_views(out@) =~= attributed(v));
        law_origin_has_the_line(v, v.len());
        assert forall|i: int| 0 <= i < out@.len() implies written_by(
            v,
            v.len(),
            (#[trigger] out@[i]).origin,
            out@[i].text@,
        ) by {
            assert(out@[i]@ == attributed(v)[i]);
            assert(written_by(
                v,
                v.len(),
                attribution(v, v.len())[i],
                lines_of(v[v.len() - 1].1)[i],
            ));
        }
    }
    out
}

/// The contents of a list of numbered versions.
pub open spec fn turn_version_views(list: Seq<(u64, String)>) -> Seq<(u64, Seq<char>)> {
    list.map_values(|v: (u64, String)| (v.0, v.1@))
}

/// The versions with the text of one more turn, which counts where it differs
/// from the last one.
pub open spec fn with_version(before: Seq<(u64, Seq<char>)>, turn: u64, text: Seq<char>) -> Seq<
    (u64, Seq<char>),
> {
    if before.len() > 0 && before.last().1 == text {
        before
    } else {
        before.push((turn, text))
    }
}

/// The distinct consecutive versions of a path in the first `n` turns that are
/// not above the cap.
pub open spec fn versions_in(
    s: StoreView,
    rel: Seq<char>,
    upto: Option<u64>,
    turns: Seq<u64>,
    n: nat,
) -> Result<Seq<(u64, Seq<char>)>, Seq<char>>
    decreases n,
{
    if n == 0 || n > turns.len() {
        Ok(Seq::empty())
    } else {
        let turn = turns[n - 1];
        match versions_in(s, rel, upto, turns, (n - 1) as nat) {
            Err(e) => Err(e),
            Ok(before) => if upto matches Some(cap) && turn > cap {
                Ok(before)
            } else {
                match s.snapshot(turn) {
                    Err(e) => Err(e),
                    Ok(snap) => match snapshot_file(s.objects, snap.tree, rel) {
                        Err(e) => Err(e),
                        Ok(None) => Ok(before),
                        Ok(Some((bytes, _))) => if binary(bytes) {
                            Err(
                                "cannot blame binary file: "@ + rel + " (as of turn "@ + numeral(
                                    turn as nat,
                                ) + ")"@,
                            )
                        } else {
                            Ok(with_version(before, turn, lossy_text(bytes)))
                        },
                    },
                }
            },
        }
    }
}

/// The distinct consecutive versions of a path.
pub open spec fn path_versions(s: StoreView, rel: Seq<char>, upto: Option<u64>) -> Result<
    Seq<(u64, Seq<char>)>,
    Seq<char>,
> {
    versions_in(s, rel, upto, s.turns(), s.turns().len())
}

proof fn lemma_versions_error(
    s: StoreView,
    rel: Seq<char>,
    upto: Option<u64>,
    turns: Seq<u64>,
    n: nat,
    m: nat,
)
    requires
        n <= m <= turns.len(),
        versions_in(s, rel, upto, turns, n) is Err,
    ensures
        versions_in(s, rel, upto, turns, m) == versions_in(s, rel, upto, turns, n),
    decreases m,
{
    if n < m {
        lemma_versions_error(s, rel, upto, turns, n, (m - 1) as nat);
    }
}

/// Every version comes from a turn with a snapshot.
pub proof fn lemma_versions_have_snapshots(
    s: StoreView,
    rel: Seq<char>,
    upto: Option<u64>,
    turns: Seq<u64>,
    n: nat,
)
    requires
        n <= turns.len(),
        versions_in(s, rel, upto, turns, n) is Ok,
    ensures
        forall|i: int|
            0 <= i < versions_in(s, rel, upto, turns, n)->Ok_0.len() ==> s.snapshot(
                (#[trigger] versions_in(s, rel, upto, turns, n)->Ok_0[i]).0,
            ) is Ok,
    decreases n,
{
    if n > 0 {
        lemma_versions_have_snapshots(s, rel, upto, turns, (n - 1) as nat);
        let before = versions_in(s, rel, upto, turns, (n - 1) as nat)->Ok_0;
        let out = versions_in(s, rel, upto, turns, n)->Ok_0;
        assert forall|i: int| 0 <= i < out.len() implies s.snapshot((#[trigger] out[i]).0) is Ok by {
            if i < before.len() {
                assert(out[i] == before[i]);
            }
        }
    }
}

proof fn lemma_versions_capped(
    s: StoreView,
    rel: Seq<char>,
    cap: u64,
    turns: Seq<u64>,
    n: nat,
    m: nat,
)
    requires
        n <= m <= turns.len(),
        forall|i: int| n <= i < m ==> #[trigger] turns[i] > cap,
    ensures
        versions_in(s, rel, Some(cap), turns, m) == versions_in(s, rel, Some(cap), turns, n),
    decreases m,
{
    if n < m {
        lemma_versions_capped(s, rel, cap, turns, n, (m - 1) as nat);
        assert(turns[m - 1] > cap);
    }
}

/// Take in the text that a file has at a turn.
pub fn add_version(versions: &mut Vec<(u64, String)>, turn: u64, text: String)
    ensures
        turn_version_views(final(versions)@) == with_version(
            turn_version_views(old(versions)@),
            turn,
            text@,
        ),
{
    let n: usize = versions.len();
    if n > 0 && same(versions[n - 1].1.as_str(), text.as_str()) {
        return;
    }
    versions.push((turn, text));
    assert(turn_version_views(versions@) =~= turn_version_views(old(versions)@).push(
        (turn, text@),
    ));
}

/// Collect the distinct consecutive versions of `rel` across recorded turns
/// (ascending), optionally capped at `upto`. Errors if any version is
/// binary: blame is a line-oriented operation.
pub fn file_versions(store: &Store, rel: &str, upto: Option<u64>) -> (r: Result<
    Vec<(u64, String)>,
    String,
>)
    ensures
        match r {
            Ok(list) => path_versions(store@, rel@, upto) == Ok::<
                Seq<(u64, Seq<char>)>,
                Seq<char>,
            >(turn_version_views(list@)),
            Err(e) => path_versions(store@, rel@, upto) == Err::<
                Seq<(u64, Seq<char>)>,
                Seq<char>,
            >(e@),
        },
{
    let turns = store.turns();
    let mut versions: Vec<(u64, String)> = Vec::new();
    let mut i: usize = 0;
    proof {
        law_ascending(ref_numbers(store@.refs));
        assert(turn_version_views(versions@) =~= Seq::<(u64, Seq<char>)>::empty());
    }
    while i < turns.len()
        invariant
            i <= turns@.len(),
            turns@ == store@.turns(),
            forall|a: int, b: int| 0 <= a < b < turns@.len() ==> turns@[a] <= turns@[b],
            versions_in(store@, rel@, upto, turns@, i as nat) == Ok::<
                Seq<(u64, Seq<char>)>,
                Seq<char>,
            >(turn_version_views(versions@)),
        decreases turns@.len() - i,
    {
        let turn: u64 = turns[i];
        match upto {
            Some(cap) => {
                if turn > cap {
                    proof {
                        assert forall|j: int| i <= j < turns@.len() implies #[trigger] turns@[j]
                            > cap by {
                            if j > i {
                                assert(turns@[i as int] <= turns@[j]);
                            }
                        }
                        lemma_versions_capped(
                            store@,
                            rel@,
                            cap,
                            turns@,
                            i as nat,
                            turns@.len(),
                        );
                    }
                    return Ok(versions);
                }
            },
            None => {},
        }
        let snap = match store.snapshot(turn) {
            Ok(s) => s,
            Err(e) => {
                proof {
                    lemma_versions_error(
                        store@,
                        rel@,
                        upto,
                        turns@,
                        (i + 1) as nat,
                        turns@.len(),
                    );
                }
                return Err(e);
            },
        };
        match file_at(store, &snap, rel) {
            Err(e) => {
                proof {
                    lemma_versions_error(
                        store@,
                        rel@,
                        upto,
                        turns@,
                        (i + 1) as nat,
                        turns@.len(),
                    );
                }
                return Err(e);
            },
            Ok(None) => {},
            Ok(Some((bytes, _))) => {
                if is_binary(bytes.as_slice()) {
                    proof {
                        lemma_versions_error(
                            store@,
                            rel@,
                            upto,
                            turns@,
                            (i + 1) as nat,
                            turns@.len(),
                        );
                    }
                    let mut e = "cannot blame binary file: ".to_string();
                    e.append(rel);
                    e.append(" (as of turn ");
                    let n = decimal(turn);
                    e.append(n.as_str());
                    e.append(")");
                    return Err(e);
                }
                let text = utf8_lossy(bytes.as_slice());
                add_version(&mut versions, turn, text);
            },
        }
        i = i + 1;
    }
    Ok(versions)
}

} // verus!
