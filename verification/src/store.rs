//! The shadow store: objects, turn refs and the format marker.
//!
//! ```text
//! .snapref/
//! ├── format            # store format version ("1")
//! ├── objects/xx/yyyy…  # content-addressed objects
//! └── refs/turns/<n>    # one file per turn, containing a snapshot id
//! ```

use vstd::prelude::*;

use crate::decimal::{decimal, law_numeral_reads_back, numeral, parse_u64, u64_value};
use crate::glob::{ignore_file, parse_lines, patterns_view, Pattern, PatternView};
use crate::object::{
    fetched, option_text, parse_snapshot, parsed_snapshot, read, tag_of, Kind, Objects, Snapshot,
    SnapshotView,
};
use crate::order::{ascending, law_ascending, place_number};
use crate::text::{same, trim, trimmed};

pub use crate::audit::{verify, VerifyReport};

verus! {

/// The directory of a store, inside the working tree.
pub const STORE_DIR: &'static str = ".snapref";

/// The ignore file, at the root of the working tree.
pub const IGNORE_FILE: &'static str = ".snaprefignore";

/// The store format that this version reads and writes.
pub const FORMAT_VERSION: &'static str = "1";

/// What a turn ref file says.
pub struct RefView {
    pub name: Seq<char>,
    pub text: Option<Seq<char>>,
}

/// A file under `refs/turns`: its name, and its text where it can be read.
#[derive(Debug)]
pub struct RefFile {
    pub name: String,
    pub text: Option<String>,
}

impl View for RefFile {
    type V = RefView;

    open spec fn view(&self) -> RefView {
        RefView { name: self.name@, text: option_text(self.text) }
    }
}

/// What a store holds.
pub struct StoreView {
    pub objects: Map<Seq<char>, Seq<u8>>,
    pub refs: Seq<RefView>,
    pub ignore: Option<Seq<char>>,
}

/// An opened shadow store: its objects and turn refs, and the text of the
/// working tree's ignore file.
pub struct Store {
    pub table: Objects,
    pub refs: Vec<RefFile>,
    pub ignore: Option<String>,
}

/// The contents of a list of turn refs.
pub open spec fn ref_views(list: Seq<RefFile>) -> Seq<RefView> {
    list.map_values(|r: RefFile| r@)
}

impl View for Store {
    type V = StoreView;

    open spec fn view(&self) -> StoreView {
        StoreView {
            objects: self.table@,
            refs: ref_views(self.refs@),
            ignore: option_text(self.ignore),
        }
    }
}

/// The turn numbers that ref files are named after, in the order of the files.
pub open spec fn ref_numbers(refs: Seq<RefView>) -> Seq<u64>
    decreases refs.len(),
{
    if refs.len() == 0 {
        Seq::empty()
    } else {
        match u64_value(refs.last().name) {
            Some(n) => ref_numbers(refs.drop_last()).push(n),
            None => ref_numbers(refs.drop_last()),
        }
    }
}

/// The text of the ref file with a given name.
pub open spec fn ref_text(refs: Seq<RefView>, name: Seq<char>) -> Option<Option<Seq<char>>>
    decreases refs.len(),
{
    if refs.len() == 0 {
        None
    } else if refs[0].name == name {
        Some(refs[0].text)
    } else {
        ref_text(refs.drop_first(), name)
    }
}

impl StoreView {
    /// All recorded turn numbers, ascending.
    pub open spec fn turns(self) -> Seq<u64> {
        ascending(ref_numbers(self.refs))
    }

    /// The newest recorded turn.
    pub open spec fn latest(self) -> Option<u64> {
        if self.turns().len() == 0 {
            None
        } else {
            Some(self.turns().last())
        }
    }

    /// The snapshot id of a turn.
    pub open spec fn turn_id(self, turn: u64) -> Result<Seq<char>, Seq<char>> {
        match ref_text(self.refs, numeral(turn as nat)) {
            Some(Some(text)) => Ok(trimmed(text)),
            _ => Err("unknown turn "@ + numeral(turn as nat) + " (see 'snapref log')"@),
        }
    }

    /// The snapshot record of a turn.
    pub open spec fn snapshot(self, turn: u64) -> Result<SnapshotView, Seq<char>> {
        match self.turn_id(turn) {
            Err(e) => Err(e),
            Ok(id) => match fetched(self.objects, id) {
                Err(e) => Err(e),
                Ok((kind, payload)) => if kind != Kind::Snapshot {
                    Err(
                        "turn "@ + numeral(turn as nat) + " ref points at a "@ + tag_of(kind)
                            + " object"@,
                    )
                } else {
                    parsed_snapshot(id, payload)
                },
            },
        }
    }

    /// The ref of a turn is taken.
    pub open spec fn recorded(self, turn: u64) -> bool {
        ref_text(self.refs, numeral(turn as nat)) is Some
    }

    /// The store with one more turn ref.
    pub open spec fn with_turn(self, turn: u64, id: Seq<char>) -> StoreView {
        StoreView {
            refs: self.refs.push(
                RefView { name: numeral(turn as nat), text: Some(id + "\n"@) },
            ),
            ..self
        }
    }

    /// The patterns of the ignore file.
    pub open spec fn patterns(self) -> Seq<PatternView> {
        match self.ignore {
            Some(text) => ignore_file(text),
            None => Seq::empty(),
        }
    }
}

/// What is wrong with a format marker, if anything.
pub open spec fn format_error(raw: Seq<char>) -> Option<Seq<char>> {
    if trimmed(raw) == FORMAT_VERSION@ {
        None
    } else {
        Some(
            "unsupported store format '"@ + trimmed(raw)
                + "' (this snapref understands format 1)"@,
        )
    }
}

/// Check the text of a format marker.
pub fn check_format(raw: &str) -> (r: Result<(), String>)
    ensures
        match r {
            Ok(_) => format_error(raw@) is None,
            Err(e) => format_error(raw@) == Some(e@),
        },
{
    let found = trim(raw);
    if same(found.as_str(), FORMAT_VERSION) {
        Ok(())
    } else {
        let mut e = "unsupported store format '".to_string();
        e.append(found.as_str());
        e.append("' (this snapref understands format 1)");
        Err(e)
    }
}

impl Store {
    /// Create (or re-open) a store whose format marker, if there is one, reads
    /// `marker`. Says whether it is newly created. Idempotent by design: agent
    /// wrappers can call `snapref init` unconditionally at session start.
    pub fn init(marker: Option<&str>) -> (r: Result<bool, String>)
        ensures
            match marker {
                None => r == Ok::<bool, String>(true),
                Some(raw) => match r {
                    Ok(created) => !created && format_error(raw@) is None,
                    Err(e) => format_error(raw@) == Some(e@),
                },
            },
    {
        match marker {
            None => Ok(true),
            Some(raw) => match check_format(raw) {
                Ok(_) => Ok(false),
                Err(e) => Err(e),
            },
        }
    }

    /// Of a directory and the directories above it, nearest first, each with
    /// whether it holds a format marker: the first that does.
    pub fn discover(markers: &[bool]) -> (r: Result<usize, String>)
        ensures
            match r {
                Ok(i) => i < markers@.len() && markers@[i as int] && forall|j: int|
                    0 <= j < i ==> !#[trigger] markers@[j],
                Err(e) => e@ == "not a snapref working tree (run 'snapref init' first)"@
                    && forall|j: int| 0 <= j < markers@.len() ==> !#[trigger] markers@[j],
            },
    {
        let mut i: usize = 0;
        while i < markers.len()
            invariant
                i <= markers@.len(),
                forall|j: int| 0 <= j < i ==> !#[trigger] markers@[j],
            decreases markers@.len() - i,
        {
            if markers[i] {
                return Ok(i);
            }
            i = i + 1;
        }
        Err("not a snapref working tree (run 'snapref init' first)".to_string())
    }

    /// The stored objects.
    pub fn objects(&self) -> (r: &Objects)
        ensures
            r@ == self@.objects,
    {
        &self.table
    }

    /// All recorded turn numbers, ascending.
    pub fn turns(&self) -> (r: Vec<u64>)
        ensures
            r@ == self@.turns(),
    {
        let ghost refs = self@.refs;
        let mut out: Vec<u64> = Vec::new();
        let mut i: usize = 0;
        assert(refs.take(0) =~= Seq::<RefView>::empty());
        assert(ascending(ref_numbers(refs.take(0))) =~= Seq::<u64>::empty());
        while i < self.refs.len()
            invariant
                i <= self.refs@.len(),
                refs == ref_views(self.refs@),
                out@ == ascending(ref_numbers(refs.take(i as int))),
            decreases self.refs@.len() - i,
        {
            assert(refs.take(i + 1).drop_last() =~= refs.take(i as int));
            assert(refs.take(i + 1).last() == self.refs@[i as int]@);
            match parse_u64(self.refs[i].name.as_str()) {
                Some(n) => {
                    place_number(&mut out, n);
                    proof {
                        let all = ref_numbers(refs.take(i + 1));
                        assert(all.drop_last() =~= ref_numbers(refs.take(i as int)));
                    }
                },
                None => {},
            }
            i = i + 1;
        }
        assert(refs.take(refs.len() as int) =~= refs);
        out
    }

    /// The newest recorded turn, if any.
    pub fn latest(&self) -> (r: Option<u64>)
        ensures
            r == self@.latest(),
    {
        let all = self.turns();
        if all.len() == 0 {
            None
        } else {
            Some(all[all.len() - 1])
        }
    }

    /// Where the ref of a turn stands.
    fn find_ref(&self, name: &str) -> (r: Option<usize>)
        ensures
            match r {
                Some(i) => i < self.refs@.len() && ref_text(self@.refs, name@) == Some(
                    self@.refs[i as int].text,
                ),
                None => ref_text(self@.refs, name@) is None,
            },
    {
        let ghost refs = self@.refs;
        let mut i: usize = 0;
        assert(refs.skip(0) =~= refs);
        while i < self.refs.len()
            invariant
                i <= self.refs@.len(),
                refs == ref_views(self.refs@),
                ref_text(refs, name@) == ref_text(refs.skip(i as int), name@),
            decreases self.refs@.len() - i,
        {
            assert(refs.skip(i as int)[0] == self.refs@[i as int]@);
            if same(self.refs[i].name.as_str(), name) {
                return Some(i);
            }
            assert(refs.skip(i as int).drop_first() =~= refs.skip(i + 1));
            i = i + 1;
        }
        None
    }

    /// Resolve a turn number to its snapshot id.
    pub fn turn_id(&self, turn: u64) -> (r: Result<String, String>)
        ensures
            match r {
                Ok(id) => self@.turn_id(turn) == Ok::<Seq<char>, Seq<char>>(id@),
                Err(e) => self@.turn_id(turn) == Err::<Seq<char>, Seq<char>>(e@),
            },
    {
        let name = decimal(turn);
        match self.find_ref(name.as_str()) {
            Some(i) => {
                assert(self@.refs[i as int] == self.refs@[i as int]@);
                match &self.refs[i].text {
                    Some(text) => {
                        return Ok(trim(text.as_str()));
                    },
                    None => {},
                }
            },
            None => {},
        }
        let mut e = "unknown turn ".to_string();
        e.append(name.as_str());
        e.append(" (see 'snapref log')");
        Err(e)
    }

    /// Record a new turn ref. Turns are append-only: overwriting is refused.
    pub fn write_turn(&mut self, turn: u64, id: &str) -> (r: Result<(), String>)
        ensures
            match r {
                Ok(_) => !old(self)@.recorded(turn) && final(self)@ == old(self)@.with_turn(
                    turn,
                    id@,
                ),
                Err(e) => old(self)@.recorded(turn) && final(self)@ == old(self)@ && e@ == "turn "@
                    + numeral(turn as nat) + " is already recorded"@,
            },
            final(self).table == old(self).table,
    {
        let name = decimal(turn);
        if self.find_ref(name.as_str()).is_some() {
            let mut e = "turn ".to_string();
            e.append(name.as_str());
            e.append(" is already recorded");
            return Err(e);
        }
        let mut text = String::new();
        text.append(id);
        text.append("\n");
        assert(text@ =~= id@ + "\n"@);
        let ghost before = self.refs@;
        self.refs.push(RefFile { name, text: Some(text) });
        assert(ref_views(self.refs@) =~= ref_views(before).push(
            RefView { name: numeral(turn as nat), text: Some(id@ + "\n"@) },
        ));
        Ok(())
    }

    /// Load the snapshot record behind a turn.
    pub fn snapshot(&self, turn: u64) -> (r: Result<Snapshot, String>)
        ensures
            match r {
                Ok(s) => self@.snapshot(turn) == Ok::<SnapshotView, Seq<char>>(s@),
                Err(e) => self@.snapshot(turn) == Err::<SnapshotView, Seq<char>>(e@),
            },
    {
        let id = self.turn_id(turn)?;
        let (kind, payload) = read(&self.table, id.as_str())?;
        match kind {
            Kind::Snapshot => parse_snapshot(id.as_str(), payload.as_slice()),
            _ => {
                let mut e = "turn ".to_string();
                let n = decimal(turn);
                e.append(n.as_str());
                e.append(" ref points at a ");
                e.append(kind.tag());
                e.append(" object");
                Err(e)
            },
        }
    }

    /// Ignore patterns from `.snaprefignore` at the working-tree root.
    pub fn ignore_patterns(&self) -> (r: Vec<Pattern>)
        ensures
            patterns_view(r@) == self@.patterns(),
    {
        match &self.ignore {
            Some(text) => parse_lines(text.as_str()),
            None => {
                let none: Vec<Pattern> = Vec::new();
                assert(patterns_view(none@) =~= Seq::<PatternView>::empty());
                none
            },
        }
    }
}

proof fn lemma_ref_numbers_push(refs: Seq<RefView>, r: RefView)
    ensures
        ref_numbers(refs.push(r)) == (match u64_value(r.name) {
            Some(n) => ref_numbers(refs).push(n),
            None => ref_numbers(refs),
        }),
{
    assert(refs.push(r).drop_last() =~= refs);
}

/// A recorded turn is among the turn numbers.
proof fn lemma_recorded_is_numbered(refs: Seq<RefView>, turn: u64)
    requires
        ref_text(refs, numeral(turn as nat)) is Some,
    ensures
        ref_numbers(refs).contains(turn),
{
    lemma_ref_text(refs, numeral(turn as nat));
    let i = choose|i: int| 0 <= i < refs.len() && (#[trigger] refs[i]).name == numeral(turn as nat);
    law_numeral_reads_back(turn as nat);
    lemma_number_of(refs, i, turn);
}

proof fn lemma_number_of(refs: Seq<RefView>, i: int, n: u64)
    requires
        0 <= i < refs.len(),
        u64_value(refs[i].name) == Some(n),
    ensures
        ref_numbers(refs).contains(n),
    decreases refs.len(),
{
    let head = refs.drop_last();
    let all = ref_numbers(refs);
    if i == refs.len() - 1 {
        assert(all.last() == n);
        assert(all[all.len() - 1] == n);
    } else {
        lemma_number_of(head, i, n);
        let k = choose|k: int| 0 <= k < ref_numbers(head).len() && ref_numbers(head)[k] == n;
        assert(all[k] == n);
    }
}

proof fn lemma_ref_text(refs: Seq<RefView>, name: Seq<char>)
    ensures
        ref_text(refs, name) is Some <==> exists|i: int|
            0 <= i < refs.len() && (#[trigger] refs[i]).name == name,
    decreases refs.len(),
{
    if refs.len() > 0 {
        let t = refs.drop_first();
        lemma_ref_text(t, name);
        if refs[0].name != name {
            if ref_text(t, name) is Some {
                let i = choose|i: int| 0 <= i < t.len() && (#[trigger] t[i]).name == name;
                assert(refs[i + 1].name == name);
            }
            if exists|i: int| 0 <= i < refs.len() && (#[trigger] refs[i]).name == name {
                let i = choose|i: int| 0 <= i < refs.len() && (#[trigger] refs[i]).name == name;
                assert(t[i - 1].name == name);
            }
        }
    }
}

proof fn lemma_ref_text_push(refs: Seq<RefView>, r: RefView, name: Seq<char>)
    ensures
        ref_text(refs.push(r), name) == (if ref_text(refs, name) is Some {
            ref_text(refs, name)
        } else if r.name == name {
            Some(r.text)
        } else {
            None
        }),
    decreases refs.len(),
{
    if refs.len() == 0 {
        reveal_with_fuel(ref_text, 2);
    } else {
        assert(refs.push(r).drop_first() =~= refs.drop_first().push(r));
        lemma_ref_text_push(refs.drop_first(), r, name);
    }
}

/// A recorded turn is among the turns.
pub(crate) proof fn lemma_recorded_is_listed(s: StoreView, turn: u64)
    requires
        s.recorded(turn),
    ensures
        s.turns().contains(turn),
{
    lemma_recorded_is_numbered(s.refs, turn);
    law_ascending(ref_numbers(s.refs));
}

/// A turn that is recorded keeps its id as refs are added behind.
pub(crate) proof fn lemma_ref_kept(s: StoreView, t: StoreView, turn: u64)
    requires
        s.recorded(turn),
        s.refs.is_prefix_of(t.refs),
        t.refs.len() <= s.refs.len() + 1,
    ensures
        t.turn_id(turn) == s.turn_id(turn),
{
    assert(s.refs =~= t.refs.subrange(0, s.refs.len() as int));
    if t.refs.len() > s.refs.len() {
        let r = t.refs.last();
        assert(t.refs =~= s.refs.push(r));
        lemma_ref_text_push(s.refs, r, numeral(turn as nat));
    } else {
        assert(t.refs =~= s.refs);
    }
}

/// A turn greater than the latest has no ref yet.
pub proof fn law_later_turn_is_free(s: StoreView, turn: u64)
    requires
        s.latest() matches Some(l) ==> l < turn,
    ensures
        !s.recorded(turn),
{
    if s.recorded(turn) {
        lemma_recorded_is_numbered(s.refs, turn);
        law_ascending(ref_numbers(s.refs));
        let all = s.turns();
        assert(all.contains(turn));
        let k = choose|k: int| 0 <= k < all.len() && all[k] == turn;
        assert(all[k] <= all[all.len() - 1]);
    }
}

proof fn lemma_placed_last(sorted: Seq<u64>, n: u64)
    requires
        sorted.len() > 0 ==> sorted.last() <= n,
    ensures
        crate::order::placed_number(sorted, n) == sorted.push(n),
{
}

/// A turn recorded behind the latest becomes the latest, reads back, and leaves
/// every other turn as it was.
pub proof fn law_recorded_turn_is_latest(s: StoreView, turn: u64, id: Seq<char>)
    requires
        s.latest() matches Some(l) ==> l < turn,
    ensures
        s.with_turn(turn, id).turns() == s.turns().push(turn),
        s.with_turn(turn, id).latest() == Some(turn),
        s.with_turn(turn, id).turn_id(turn) == Ok::<Seq<char>, Seq<char>>(trimmed(id + "\n"@)),
        forall|other: u64|
            other != turn ==> #[trigger] s.with_turn(turn, id).turn_id(other) == s.turn_id(other),
{
    let r = RefView { name: numeral(turn as nat), text: Some(id + "\n"@) };
    law_numeral_reads_back(turn as nat);
    lemma_ref_numbers_push(s.refs, r);
    let all = ref_numbers(s.refs).push(turn);
    assert(all.drop_last() =~= ref_numbers(s.refs));
    lemma_placed_last(s.turns(), turn);
    law_later_turn_is_free(s, turn);
    lemma_ref_text_push(s.refs, r, numeral(turn as nat));
    assert forall|other: u64| other != turn implies #[trigger] s.with_turn(turn, id).turn_id(other)
        == s.turn_id(other) by {
        lemma_ref_text_push(s.refs, r, numeral(other as nat));
        law_numeral_reads_back(other as nat);
    }
}

/// Turn numbers are listed in ascending order.
pub proof fn law_turns_are_ascending(s: StoreView)
    ensures
        forall|i: int, j: int| 0 <= i < j < s.turns().len() ==> s.turns()[i] <= s.turns()[j],
        forall|t: u64| #[trigger] s.turns().contains(t) <==> ref_numbers(s.refs).contains(t),
{
    law_ascending(ref_numbers(s.refs));
}

/// A ref file name that is the numeral of a turn.
pub open spec fn turn_name(name: Seq<char>) -> bool {
    u64_value(name) is Some && name == numeral(u64_value(name)->0 as nat)
}

/// Every ref file is named after a turn, and no two after the same.
pub open spec fn well_numbered(refs: Seq<RefView>) -> bool {
    &&& forall|i: int| 0 <= i < refs.len() ==> turn_name((#[trigger] refs[i]).name)
    &&& forall|i: int, j: int|
        0 <= i < refs.len() && 0 <= j < refs.len() && (#[trigger] refs[i]).name == (
        #[trigger] refs[j]).name ==> i == j
}

/// The store after turns were written, in any order; a number that is recorded
/// already is refused.
pub open spec fn written_turns(s: StoreView, writes: Seq<(u64, Seq<char>)>) -> StoreView
    decreases writes.len(),
{
    if writes.len() == 0 {
        s
    } else {
        let before = written_turns(s, writes.drop_last());
        let (turn, id) = writes.last();
        if before.recorded(turn) {
            before
        } else {
            before.with_turn(turn, id)
        }
    }
}

proof fn lemma_numbers(refs: Seq<RefView>)
    requires
        well_numbered(refs),
    ensures
        ref_numbers(refs).len() == refs.len(),
        forall|i: int|
            0 <= i < refs.len() ==> Some(#[trigger] ref_numbers(refs)[i]) == u64_value(
                refs[i].name,
            ),
    decreases refs.len(),
{
    if refs.len() > 0 {
        let head = refs.drop_last();
        assert(forall|i: int| 0 <= i < head.len() ==> #[trigger] head[i] == refs[i]);
        lemma_numbers(head);
        assert(turn_name(refs[refs.len() - 1].name));
    }
}

/// Where every ref file is named after a turn, the turns are listed in strictly
/// ascending numeric order, each once: exactly those that are recorded. The
/// latest is the greatest of them.
pub proof fn law_turns_are_the_recorded_ones(s: StoreView)
    requires
        well_numbered(s.refs),
    ensures
        forall|i: int, j: int| 0 <= i < j < s.turns().len() ==> s.turns()[i] < s.turns()[j],
        forall|t: u64| #[trigger] s.turns().contains(t) <==> s.recorded(t),
        match s.latest() {
            None => forall|t: u64| !#[trigger] s.recorded(t),
            Some(l) => s.recorded(l) && forall|t: u64| #[trigger] s.recorded(t) ==> t <= l,
        },
{
    let list = ref_numbers(s.refs);
    let turns = s.turns();
    lemma_numbers(s.refs);
    law_ascending(list);
    assert(list.no_duplicates()) by {
        assert forall|i: int, j: int| 0 <= i < list.len() && 0 <= j < list.len() && i != j implies
            list[i] != list[j] by {
            assert(turn_name(s.refs[i].name) && turn_name(s.refs[j].name));
            if list[i] == list[j] {
                assert(s.refs[i].name == s.refs[j].name);
            }
        }
    }
    list.unique_seq_to_set();
    assert(turns.to_set() =~= list.to_set()) by {
        assert forall|t: u64| turns.to_set().contains(t) <==> list.to_set().contains(t) by {
            assert(turns.contains(t) <==> list.contains(t));
        }
    }
    turns.lemma_no_dup_set_cardinality();
    assert forall|t: u64| #[trigger] turns.contains(t) <==> s.recorded(t) by {
        lemma_ref_text(s.refs, numeral(t as nat));
        law_numeral_reads_back(t as nat);
        if s.recorded(t) {
            lemma_recorded_is_numbered(s.refs, t);
        }
        if list.contains(t) {
            let i = choose|i: int| 0 <= i < list.len() && list[i] == t;
            assert(turn_name(s.refs[i].name));
            assert(s.refs[i].name == numeral(t as nat));
        }
    }
    if turns.len() > 0 {
        let l = turns[turns.len() - 1];
        assert(turns.contains(l));
        assert forall|t: u64| #[trigger] s.recorded(t) implies t <= l by {
            assert(turns.contains(t));
            let k = choose|k: int| 0 <= k < turns.len() && turns[k] == t;
            assert(turns[k] <= l);
        }
    } else {
        assert forall|t: u64| !#[trigger] s.recorded(t) by {
            assert(!turns.contains(t));
        }
    }
}

/// Writing a turn keeps ref files named after turns, and records that turn and
/// no other.
pub proof fn law_writing_a_turn_records_it(s: StoreView, turn: u64, id: Seq<char>)
    requires
        well_numbered(s.refs),
        !s.recorded(turn),
    ensures
        well_numbered(s.with_turn(turn, id).refs),
        forall|t: u64| #[trigger]
            s.with_turn(turn, id).recorded(t) <==> s.recorded(t) || t == turn,
{
    let r = RefView { name: numeral(turn as nat), text: Some(id + "\n"@) };
    let refs = s.refs.push(r);
    law_numeral_reads_back(turn as nat);
    lemma_ref_text(s.refs, numeral(turn as nat));
    assert forall|i: int| 0 <= i < refs.len() implies turn_name((#[trigger] refs[i]).name) by {
        if i < s.refs.len() {
            assert(refs[i] == s.refs[i]);
        }
    }
    assert forall|i: int, j: int|
        0 <= i < refs.len() && 0 <= j < refs.len() && (#[trigger] refs[i]).name == (
        #[trigger] refs[j]).name implies i == j by {
        if i < s.refs.len() {
            assert(refs[i] == s.refs[i]);
        }
        if j < s.refs.len() {
            assert(refs[j] == s.refs[j]);
        }
    }
    assert forall|t: u64| #[trigger] s.with_turn(turn, id).recorded(t) <==> s.recorded(t) || t
        == turn by {
        lemma_ref_text_push(s.refs, r, numeral(t as nat));
        law_numeral_reads_back(t as nat);
    }
}

/// In a store that began without turns, after turns were written in any order,
/// the turns are listed strictly ascending, each number that was written once,
/// and the latest is the greatest.
pub proof fn law_written_turns_are_listed(s: StoreView, writes: Seq<(u64, Seq<char>)>)
    requires
        s.refs.len() == 0,
    ensures
        ({
            let after = written_turns(s, writes);
            let turns = after.turns();
            &&& forall|i: int, j: int| 0 <= i < j < turns.len() ==> turns[i] < turns[j]
            &&& forall|t: u64| #[trigger]
                turns.contains(t) <==> exists|k: int|
                    0 <= k < writes.len() && (#[trigger] writes[k]).0 == t
            &&& match after.latest() {
                None => writes.len() == 0,
                Some(l) => turns.contains(l) && forall|k: int|
                    0 <= k < writes.len() ==> (#[trigger] writes[k]).0 <= l,
            }
        }),
{
    let after = written_turns(s, writes);
    lemma_written_turns(s, writes);
    law_turns_are_the_recorded_ones(after);
    assert forall|t: u64| #[trigger] after.turns().contains(t) <==> exists|k: int|
        0 <= k < writes.len() && (#[trigger] writes[k]).0 == t by {
        assert(after.recorded(t) <==> after.turns().contains(t));
    }
    assert forall|k: int| 0 <= k < writes.len() implies after.recorded((#[trigger] writes[k]).0) by {}
    if after.latest() is None && writes.len() > 0 {
        assert(after.recorded(writes[0].0));
    }
}

proof fn lemma_written_turns(s: StoreView, writes: Seq<(u64, Seq<char>)>)
    requires
        s.refs.len() == 0,
    ensures
        well_numbered(written_turns(s, writes).refs),
        forall|t: u64| #[trigger]
            written_turns(s, writes).recorded(t) <==> exists|k: int|
                0 <= k < writes.len() && (#[trigger] writes[k]).0 == t,
    decreases writes.len(),
{
    let after = written_turns(s, writes);
    if writes.len() == 0 {
    } else {
        let head = writes.drop_last();
        let before = written_turns(s, head);
        let (turn, id) = writes.last();
        lemma_written_turns(s, head);
        if !before.recorded(turn) {
            law_writing_a_turn_records_it(before, turn, id);
        }
        assert forall|t: u64| #[trigger] after.recorded(t) <==> exists|k: int|
            0 <= k < writes.len() && (#[trigger] writes[k]).0 == t by {
            assert(after.recorded(t) <==> before.recorded(t) || t == turn);
            if before.recorded(t) {
                let k = choose|k: int| 0 <= k < head.len() && (#[trigger] head[k]).0 == t;
                assert(writes[k].0 == t);
            }
            if t == turn {
                assert(writes[writes.len() - 1].0 == t);
            }
            if exists|k: int| 0 <= k < writes.len() && (#[trigger] writes[k]).0 == t {
                let k = choose|k: int| 0 <= k < writes.len() && (#[trigger] writes[k]).0 == t;
                if k < head.len() {
                    assert(head[k].0 == t);
                }
            }
        }
    }
}

} // verus!
