//! What can be read is what was written: an object, a tree or a record that is
//! accepted has the form in which they are stored.

use vstd::prelude::*;
use vstd::utf8::{decode_utf8, decode_utf8_encode_utf8, encode_utf8};

use crate::decimal::{i64_value, u64_value, usize_value};
use crate::object::{
    fetched, parsed_entries, parsed_entry, parsed_snapshot, parsed_tree, Kind, SnapshotView,
    TreeEntryView,
};
use crate::text::{after_first, before_first, first_index, lines_of, words};

verus! {

proof fn lemma_first<A>(s: Seq<A>, x: A)
    ensures
        0 <= first_index(s, x) <= s.len(),
        first_index(s, x) < s.len() ==> s[first_index(s, x)] == x,
        forall|i: int| 0 <= i < first_index(s, x) ==> #[trigger] s[i] != x,
        s.contains(x) <==> first_index(s, x) < s.len(),
    decreases s.len(),
{
    if s.len() > 0 && s[0] != x {
        let t = s.drop_first();
        lemma_first(t, x);
        assert forall|i: int| 0 <= i < first_index(s, x) implies #[trigger] s[i] != x by {
            if i > 0 {
                assert(t[i - 1] == s[i]);
            }
        }
        if s.contains(x) {
            let i = choose|i: int| 0 <= i < s.len() && s[i] == x;
            assert(t[i - 1] == x);
        }
    }
}

/// A text with a separator is what stands before the first one, the separator and
/// what stands behind it.
pub proof fn law_text_is_split_at_the_first_separator(s: Seq<char>, c: char)
    requires
        s.contains(c),
    ensures
        s == before_first(s, c) + seq![c] + after_first(s, c),
        !before_first(s, c).contains(c),
{
    lemma_first(s, c);
    assert(s =~= before_first(s, c) + seq![c] + after_first(s, c));
    let head = before_first(s, c);
    if head.contains(c) {
        let i = choose|i: int| 0 <= i < head.len() && head[i] == c;
        assert(s[i] == c);
    }
}

/// The name of a kind of objects.
pub open spec fn kind_name(kind: Kind) -> Seq<char> {
    match kind {
        Kind::Blob => "blob"@,
        Kind::Tree => "tree"@,
        Kind::Snapshot => "snapshot"@,
    }
}

/// `data` is an object: its kind, its length, a zero byte and its bytes.
pub open spec fn is_object(data: Seq<u8>, kind: Kind, len: Seq<char>, payload: Seq<u8>) -> bool {
    &&& data == encode_utf8(kind_name(kind) + " "@ + len) + seq![0u8] + payload
    &&& usize_value(len) == Some(payload.len() as usize)
    &&& payload.len() <= usize::MAX
}

/// An object that is read is there under its id, and its bytes are all that
/// stands behind a header which tells its kind and its length.
pub proof fn law_read_object_stands_behind_its_header(
    objects: Map<Seq<char>, Seq<u8>>,
    id: Seq<char>,
)
    ensures
        match fetched(objects, id) {
            Ok((kind, payload)) => objects.contains_key(id) && id.len() == 40 && exists|
                len: Seq<char>,
            | #[trigger] is_object(objects[id], kind, len, payload),
            Err(_) => true,
        },
{
    if fetched(objects, id) is Ok {
        let data = objects[id];
        let (kind, payload) = fetched(objects, id)->Ok_0;
        let nul = first_index(data, 0u8);
        lemma_first(data, 0u8);
        let head = decode_utf8(data.take(nul));
        decode_utf8_encode_utf8(data.take(nul));
        law_text_is_split_at_the_first_separator(head, ' ');
        reveal_strlit(" ");
        assert(" "@ =~= seq![' ']);
        let len = after_first(head, ' ');
        assert(kind_name(kind) == before_first(head, ' '));
        assert(data =~= data.take(nul) + seq![0u8] + payload);
        assert(is_object(data, kind, len, payload));
    }
}

/// A line of a tree holds the entry: its mode, its id and its name.
pub open spec fn holds_entry(line: Seq<char>, e: TreeEntryView) -> bool {
    &&& line == e.mode + " "@ + e.id + " "@ + e.name
    &&& !e.mode.contains(' ')
    &&& e.id.len() == 40
    &&& e.name.len() > 0
}

proof fn lemma_entry(line: Seq<char>)
    requires
        parsed_entry(line) is Some,
    ensures
        holds_entry(line, parsed_entry(line)->0),
{
    let rest = after_first(line, ' ');
    law_text_is_split_at_the_first_separator(line, ' ');
    law_text_is_split_at_the_first_separator(rest, ' ');
    reveal_strlit(" ");
    assert(" "@ =~= seq![' ']);
    let e = parsed_entry(line)->0;
    assert(line =~= e.mode + " "@ + e.id + " "@ + e.name);
}

proof fn lemma_entries(lines: Seq<Seq<char>>)
    requires
        parsed_entries(lines) is Ok,
    ensures
        parsed_entries(lines)->Ok_0.len() == lines.len(),
        forall|i: int|
            0 <= i < lines.len() ==> holds_entry(
                #[trigger] lines[i],
                parsed_entries(lines)->Ok_0[i],
            ),
    decreases lines.len(),
{
    if lines.len() > 0 {
        let less = lines.drop_last();
        lemma_entries(less);
        lemma_entry(lines.last());
        let all = parsed_entries(lines)->Ok_0;
        let before = parsed_entries(less)->Ok_0;
        assert forall|i: int| 0 <= i < lines.len() implies holds_entry(
            #[trigger] lines[i],
            all[i],
        ) by {
            if i < less.len() {
                assert(lines[i] == less[i]);
                assert(all[i] == before[i]);
            }
        }
    }
}

/// A tree that is read has one entry for each of its lines, in their order.
pub proof fn law_read_tree_has_an_entry_for_each_line(payload: Seq<u8>)
    ensures
        match parsed_tree(payload) {
            Ok(entries) => {
                let lines = lines_of(decode_utf8(payload));
                &&& entries.len() == lines.len()
                &&& forall|i: int|
                    0 <= i < lines.len() ==> holds_entry(#[trigger] lines[i], entries[i])
            },
            Err(_) => true,
        },
{
    if parsed_tree(payload) is Ok {
        lemma_entries(lines_of(decode_utf8(payload)));
    }
}

/// The lines of a record tell what the snapshot is.
pub open spec fn tells(lines: Seq<Seq<char>>, id: Seq<char>, s: SnapshotView) -> bool {
    &&& lines.len() >= 7
    &&& s.id == id
    &&& lines[0] == "tree "@ + s.tree
    &&& lines[1] == "parent "@ + (match s.parent {
        Some(p) => p,
        None => "-"@,
    })
    &&& exists|turn: Seq<char>|
        lines[2] == "turn "@ + turn && #[trigger] u64_value(turn) == Some(s.turn)
    &&& exists|time: Seq<char>|
        lines[3] == "time "@ + time && #[trigger] i64_value(time) == Some(s.time)
    &&& exists|stats: Seq<char>|
        lines[4] == "stats "@ + stats && #[trigger] words(stats).len() == 5 && u64_value(
            words(stats)[0],
        ) == Some(s.stats.files_added) && u64_value(words(stats)[1]) == Some(
            s.stats.files_modified,
        ) && u64_value(words(stats)[2]) == Some(s.stats.files_deleted) && u64_value(
            words(stats)[3],
        ) == Some(s.stats.lines_added) && u64_value(words(stats)[4]) == Some(
            s.stats.lines_removed,
        )
    &&& lines[5] == "agent "@ + s.agent
    &&& lines[6] == "label "@ + s.label
    &&& s.tree.len() == 40
    &&& s.parent matches Some(p) ==> p.len() == 40
}

proof fn lemma_field(line: Seq<char>, prefix: Seq<char>)
    requires
        prefix.is_prefix_of(line),
    ensures
        line == prefix + line.skip(prefix.len() as int),
{
    assert(line =~= prefix + line.skip(prefix.len() as int));
}

/// A record that is read tells line by line what the snapshot is.
pub proof fn law_read_record_tells_the_snapshot(id: Seq<char>, payload: Seq<u8>)
    ensures
        match parsed_snapshot(id, payload) {
            Ok(s) => tells(lines_of(decode_utf8(payload)), id, s),
            Err(_) => true,
        },
{
    if parsed_snapshot(id, payload) is Ok {
        let lines = lines_of(decode_utf8(payload));
        let s = parsed_snapshot(id, payload)->Ok_0;
        lemma_field(lines[0], "tree "@);
        lemma_field(lines[1], "parent "@);
        lemma_field(lines[2], "turn "@);
        lemma_field(lines[3], "time "@);
        lemma_field(lines[4], "stats "@);
        lemma_field(lines[5], "agent "@);
        lemma_field(lines[6], "label "@);
        let turn = lines[2].skip("turn "@.len() as int);
        let time = lines[3].skip("time "@.len() as int);
        let stats = lines[4].skip("stats "@.len() as int);
        assert(lines[2] == "turn "@ + turn && u64_value(turn) == Some(s.turn));
        assert(lines[3] == "time "@ + time && i64_value(time) == Some(s.time));
        assert(lines[4] == "stats "@ + stats && words(stats).len() == 5);
    }
}

} // verus!
