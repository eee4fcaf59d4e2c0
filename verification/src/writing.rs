//! What is written where: JSON strings that any reader of JSON gets back, texts
//! cut to a width, stored forms byte by byte, and the numbers of turns.

use vstd::prelude::*;
use vstd::utf8::encode_utf8;

use crate::cli::{json_body, json_char, json_text, truncated};
use crate::decimal::{numeral, signed_numeral};
use crate::object::{
    cleaned, encoded, object_id, snapshot_text, stored, tree_text, unbroken, Kind, SnapshotView,
    TreeEntryView,
};
use crate::sha1::{hex_digit, sha1_hex};
use crate::snapshot::{taken, LoadedView};
use crate::store::StoreView;
use crate::text::{trimmed, trimmed_end, trimmed_start, white_space};

verus! {

/// The character that a backslash and `c` stand for in JSON.
pub open spec fn escape(c: char) -> Option<char> {
    if c == '"' || c == '\\' || c == '/' {
        Some(c)
    } else if c == 'n' {
        Some('\n')
    } else if c == 'r' {
        Some('\r')
    } else if c == 't' {
        Some('\t')
    } else {
        None
    }
}

/// The value of a hexadecimal digit.
pub open spec fn hex_value(c: char) -> int {
    if '0' <= c <= '9' {
        c as int - '0' as int
    } else if 'a' <= c <= 'f' {
        10 + c as int - 'a' as int
    } else if 'A' <= c <= 'F' {
        10 + c as int - 'A' as int
    } else {
        -1
    }
}

/// The inside `t` of a JSON string stands for the text `s`.
pub open spec fn stands_for(t: Seq<char>, s: Seq<char>) -> bool
    decreases t.len(),
{
    if t.len() == 0 || s.len() == 0 {
        t.len() == 0 && s.len() == 0
    } else if t[0] == '\\' && t.len() >= 6 && t[1] == 'u' {
        &&& hex_value(t[2]) >= 0 && hex_value(t[3]) >= 0
        &&& hex_value(t[4]) >= 0 && hex_value(t[5]) >= 0
        &&& s[0] as u32 == hex_value(t[2]) * 4096 + hex_value(t[3]) * 256 + hex_value(t[4]) * 16
            + hex_value(t[5])
        &&& stands_for(t.skip(6), s.skip(1))
    } else if t[0] == '\\' {
        t.len() >= 2 && escape(t[1]) == Some(s[0]) && stands_for(t.skip(2), s.skip(1))
    } else {
        t[0] != '"' && t[0] as u32 >= 0x20 && t[0] == s[0] && stands_for(t.skip(1), s.skip(1))
    }
}

proof fn lemma_body_front(s: Seq<char>)
    requires
        s.len() > 0,
    ensures
        json_body(s) == json_char(s[0]) + json_body(s.skip(1)),
    decreases s.len(),
{
    if s.len() == 1 {
        assert(s.drop_last() =~= Seq::<char>::empty());
        assert(s.skip(1) =~= Seq::<char>::empty());
        assert(json_body(s) =~= json_char(s[0]) + json_body(s.skip(1)));
    } else {
        lemma_body_front(s.drop_last());
        assert(s.drop_last().skip(1) =~= s.skip(1).drop_last());
        assert(json_body(s) =~= json_char(s[0]) + json_body(s.skip(1)));
    }
}

proof fn lemma_hex(n: u8)
    requires
        n < 16,
    ensures
        hex_value(hex_digit(n)) == n,
{
}

proof fn lemma_control(c: char)
    requires
        (c as u32) < 0x20,
    ensures
        hex_value(hex_digit((c as u32 / 16) as u8)) * 16 + hex_value(
            hex_digit((c as u32 % 16) as u8),
        ) == c as u32,
        hex_value(hex_digit((c as u32 / 16) as u8)) >= 0,
        hex_value(hex_digit((c as u32 % 16) as u8)) >= 0,
{
    let n: u32 = c as u32;
    lemma_hex((n / 16) as u8);
    lemma_hex((n % 16) as u8);
    assert(n == n / 16 * 16 + n % 16);
}

proof fn lemma_char_stands_for(s: Seq<char>, t: Seq<char>)
    requires
        s.len() > 0,
        json_char(s[0]).is_prefix_of(t),
        stands_for(t.skip(json_char(s[0]).len() as int), s.skip(1)),
    ensures
        stands_for(t, s),
{
    let c = s[0];
    let head = json_char(c);
    assert(forall|i: int| 0 <= i < head.len() ==> t.subrange(0, head.len() as int)[i] == t[i]);
    assert(t[0] == head[0]);
    if c == '"' || c == '\\' || c == '\n' || c == '\r' || c == '\t' {
        assert(head.len() == 2 && t[1] == head[1]);
        assert(t[0] == '\\' && t[1] != 'u');
        assert(escape(t[1]) == Some(c));
    } else if (c as u32) < 0x20 {
        assert(head.len() == 6 && t[1] == head[1] && t[2] == head[2] && t[3] == head[3]);
        assert(t[4] == head[4] && t[5] == head[5]);
        assert(hex_value('0') == 0);
        lemma_control(c);
        assert(stands_for(t, s));
    } else {
        assert(head.len() == 1 && t[0] == c);
        assert(stands_for(t, s));
    }
}

proof fn lemma_body_stands_for(s: Seq<char>)
    ensures
        stands_for(json_body(s), s),
    decreases s.len(),
{
    if s.len() > 0 {
        lemma_body_front(s);
        lemma_body_stands_for(s.skip(1));
        let head = json_char(s[0]);
        let t = json_body(s);
        assert(t.skip(head.len() as int) =~= json_body(s.skip(1)));
        assert(head =~= t.subrange(0, head.len() as int));
        lemma_char_stands_for(s, t);
    }
}

/// A JSON string stands for the text it was written from: whoever reads it by
/// the rules of JSON gets that text.
pub proof fn law_json_stands_for_its_text(s: Seq<char>)
    ensures
        exists|t: Seq<char>|
            json_text(s) == seq!['"'] + t + seq!['"'] && #[trigger] stands_for(t, s),
{
    lemma_body_stands_for(s);
}

/// A text that fits stays as it is; a longer one keeps its beginning, ends in two
/// dots and fills the width.
pub proof fn law_cut_text_keeps_its_beginning(s: Seq<char>, max: int)
    requires
        max >= 2,
    ensures
        s.len() <= max ==> truncated(s, max) == s,
        s.len() > max ==> truncated(s, max).len() == max && truncated(s, max) == s.subrange(
            0,
            max - 2,
        ) + seq!['.', '.'],
{
    reveal_strlit("..");
    if s.len() > max {
        assert(truncated(s, max) =~= s.subrange(0, max - 2) + seq!['.', '.']);
    }
}

/// All of the text is white space.
pub open spec fn blank(s: Seq<char>) -> bool {
    forall|i: int| 0 <= i < s.len() ==> white_space(#[trigger] s[i])
}

proof fn lemma_start(s: Seq<char>) -> (front: Seq<char>)
    ensures
        blank(front),
        s == front + trimmed_start(s),
        trimmed_start(s).len() > 0 ==> !white_space(trimmed_start(s)[0]),
    decreases s.len(),
{
    if s.len() > 0 && white_space(s[0]) {
        let f = lemma_start(s.drop_first());
        let front = seq![s[0]] + f;
        assert(s.drop_first() == f + trimmed_start(s));
        assert(s =~= seq![s[0]] + s.drop_first());
        assert(seq![s[0]] + (f + trimmed_start(s)) =~= front + trimmed_start(s));
        front
    } else {
        assert(s =~= Seq::<char>::empty() + s);
        Seq::empty()
    }
}

proof fn lemma_end(s: Seq<char>) -> (back: Seq<char>)
    ensures
        blank(back),
        s == trimmed_end(s) + back,
        trimmed_end(s).len() > 0 ==> !white_space(trimmed_end(s).last()),
    decreases s.len(),
{
    if s.len() > 0 && white_space(s.last()) {
        let b = lemma_end(s.drop_last());
        let back = b.push(s.last());
        assert(s.drop_last() == trimmed_end(s) + b);
        assert(s =~= s.drop_last().push(s.last()));
        assert((trimmed_end(s) + b).push(s.last()) =~= trimmed_end(s) + back);
        back
    } else {
        assert(s =~= s + Seq::<char>::empty());
        Seq::empty()
    }
}

/// Trimming takes white space off both ends and nothing else.
pub proof fn law_trimming_takes_white_space_off_the_ends(s: Seq<char>)
    ensures
        exists|front: Seq<char>, back: Seq<char>|
            #![trigger blank(front), blank(back)]
            blank(front) && blank(back) && s == front + trimmed(s) + back,
        trimmed(s).len() > 0 ==> !white_space(trimmed(s)[0]) && !white_space(trimmed(s).last()),
        white_space(' ') && white_space('\t') && white_space('\n') && white_space('\r'),
        forall|c: char| '!' <= c <= '~' ==> !#[trigger] white_space(c),
{
    let front = lemma_start(s);
    let back = lemma_end(trimmed_start(s));
    assert(blank(front) && blank(back));
    assert(s =~= front + trimmed(s) + back);
    if trimmed(s).len() > 0 {
        assert(trimmed(s)[0] == trimmed_start(s)[0]);
    }
}

/// `t` is what stands in `s` from a place on, with line breaks as spaces.
pub open spec fn copied(s: Seq<char>, from: int, t: Seq<char>) -> bool {
    &&& 0 <= from <= s.len() - t.len()
    &&& forall|i: int|
        0 <= i < t.len() ==> #[trigger] t[i] == (if s[from + i] == '\n' || s[from + i] == '\r' {
            ' '
        } else {
            s[from + i]
        })
}

/// Free text is recorded character by character, with line breaks as spaces and
/// without white space at its ends.
pub proof fn law_recorded_text_keeps_its_characters(s: Seq<char>)
    ensures
        exists|from: int| #[trigger] copied(s, from, cleaned(s)),
        cleaned(s).len() > 0 ==> !white_space(cleaned(s)[0]) && !white_space(cleaned(s).last()),
        (exists|i: int| 0 <= i < s.len() && !white_space(#[trigger] s[i])) ==> cleaned(s).len() > 0,
{
    let flat = unbroken(s);
    law_trimming_takes_white_space_off_the_ends(flat);
    let front = lemma_start(flat);
    let back = lemma_end(trimmed_start(flat));
    assert(flat =~= front + trimmed(flat) + back);
    let from = front.len() as int;
    assert forall|i: int| 0 <= i < cleaned(s).len() implies #[trigger] cleaned(s)[i] == (if s[from
        + i] == '\n' || s[from + i] == '\r' {
        ' '
    } else {
        s[from + i]
    }) by {
        assert(flat[from + i] == cleaned(s)[i]);
    }
    assert(copied(s, from, cleaned(s)));
    if exists|i: int| 0 <= i < s.len() && !white_space(#[trigger] s[i]) {
        let i = choose|i: int| 0 <= i < s.len() && !white_space(#[trigger] s[i]);
        assert(flat[i] == s[i]);
        if cleaned(s).len() == 0 {
            if i < from {
                assert(front[i] == flat[i]);
            } else {
                assert(back[i - from] == flat[i]);
            }
        }
    }
}

/// An object is stored as its kind, its length in decimal, a zero byte and its
/// bytes, under the SHA-1 of all that.
pub proof fn law_objects_are_stored_behind_a_header(
    objects: Map<Seq<char>, Seq<u8>>,
    payload: Seq<u8>,
)
    ensures
        encoded(Kind::Blob, payload) == encode_utf8("blob "@ + numeral(payload.len())) + seq![0u8]
            + payload,
        encoded(Kind::Tree, payload) == encode_utf8("tree "@ + numeral(payload.len())) + seq![0u8]
            + payload,
        encoded(Kind::Snapshot, payload) == encode_utf8("snapshot "@ + numeral(payload.len()))
            + seq![0u8] + payload,
        forall|kind: Kind| #[trigger]
            object_id(kind, payload) == sha1_hex(encoded(kind, payload)),
        forall|kind: Kind| #[trigger]
            stored(objects, kind, payload).contains_key(sha1_hex(encoded(kind, payload))),
{
    reveal_strlit("blob");
    reveal_strlit("tree");
    reveal_strlit("snapshot");
    reveal_strlit(" ");
    reveal_strlit("blob ");
    reveal_strlit("tree ");
    reveal_strlit("snapshot ");
    assert("blob"@ + " "@ =~= "blob "@);
    assert("tree"@ + " "@ =~= "tree "@);
    assert("snapshot"@ + " "@ =~= "snapshot "@);
    assert(encoded(Kind::Blob, payload) =~= encode_utf8("blob "@ + numeral(payload.len())) + seq![
        0u8,
    ] + payload);
    assert(encoded(Kind::Tree, payload) =~= encode_utf8("tree "@ + numeral(payload.len())) + seq![
        0u8,
    ] + payload);
    assert(encoded(Kind::Snapshot, payload) =~= encode_utf8("snapshot "@ + numeral(payload.len()))
        + seq![0u8] + payload);
}

/// A tree is stored line by line: mode, id and name of each entry, with single
/// spaces between them.
pub proof fn law_tree_is_one_line_per_entry(entries: Seq<TreeEntryView>, e: TreeEntryView)
    ensures
        tree_text(Seq::empty()) == Seq::<char>::empty(),
        tree_text(entries.push(e)) == tree_text(entries) + e.mode + " "@ + e.id + " "@ + e.name
            + "\n"@,
{
    reveal_strlit(" ");
    reveal_strlit("\n");
    assert(entries.push(e).drop_last() =~= entries);
    assert(tree_text(entries.push(e)) =~= tree_text(entries) + e.mode + " "@ + e.id + " "@ + e.name
        + "\n"@);
}

proof fn lemma_line(before: Seq<char>, name: Seq<char>, value: Seq<char>)
    ensures
        before + (name + value).push('\n') == before + name + value + "\n"@,
{
    reveal_strlit("\n");
    assert(before + (name + value).push('\n') =~= before + name + value + "\n"@);
}

/// A snapshot is recorded in seven lines: the tree, the parent or a dash, the
/// turn, the time, the five counts, the agent and the label.
pub proof fn law_record_is_seven_lines(s: SnapshotView)
    ensures
        snapshot_text(s) == "tree "@ + s.tree + "\n"@ + "parent "@ + (match s.parent {
            Some(p) => p,
            None => "-"@,
        }) + "\n"@ + "turn "@ + numeral(s.turn as nat) + "\n"@ + "time "@ + signed_numeral(
            s.time as int,
        ) + "\n"@ + "stats "@ + (numeral(s.stats.files_added as nat) + " "@ + numeral(
            s.stats.files_modified as nat,
        ) + " "@ + numeral(s.stats.files_deleted as nat) + " "@ + numeral(
            s.stats.lines_added as nat,
        ) + " "@ + numeral(s.stats.lines_removed as nat)) + "\n"@ + "agent "@ + s.agent + "\n"@
            + "label "@ + s.label + "\n"@,
{
    let none = Seq::<char>::empty();
    let parent = match s.parent {
        Some(p) => p,
        None => "-"@,
    };
    let stats = numeral(s.stats.files_added as nat) + " "@ + numeral(s.stats.files_modified as nat)
        + " "@ + numeral(s.stats.files_deleted as nat) + " "@ + numeral(s.stats.lines_added as nat)
        + " "@ + numeral(s.stats.lines_removed as nat);
    lemma_line(none, "tree "@, s.tree);
    assert(none + ("tree "@ + s.tree).push('\n') =~= ("tree "@ + s.tree).push('\n'));
    assert(none + "tree "@ =~= "tree "@);
    let tree = "tree "@ + s.tree + "\n"@;
    lemma_line(tree, "parent "@, parent);
    let to_parent = tree + "parent "@ + parent + "\n"@;
    lemma_line(to_parent, "turn "@, numeral(s.turn as nat));
    let to_turn = to_parent + "turn "@ + numeral(s.turn as nat) + "\n"@;
    lemma_line(to_turn, "time "@, signed_numeral(s.time as int));
    let to_time = to_turn + "time "@ + signed_numeral(s.time as int) + "\n"@;
    lemma_line(to_time, "stats "@, stats);
    let to_stats = to_time + "stats "@ + stats + "\n"@;
    lemma_line(to_stats, "agent "@, s.agent);
    let to_agent = to_stats + "agent "@ + s.agent + "\n"@;
    lemma_line(to_agent, "label "@, s.label);
}

/// Turns are numbered in a row from one on, unless a number is asked for; one
/// that is not above all others is refused.
pub proof fn law_turns_are_numbered_in_a_row(
    s: StoreView,
    work: Seq<LoadedView>,
    label: Seq<char>,
    agent: Seq<char>,
    wanted: Option<u64>,
    time: i64,
)
    requires
        wanted is None ==> s.latest() != Some(u64::MAX),
    ensures
        match taken(s, work, label, agent, wanted, time).1 {
            Ok(snap) => match (wanted, s.latest()) {
                (None, None) => snap.turn == 1,
                (None, Some(l)) => snap.turn == l + 1,
                (Some(n), None) => snap.turn == n && n > 0,
                (Some(n), Some(l)) => snap.turn == n && n > l,
            },
            Err(_) => true,
        },
{
}

} // verus!
