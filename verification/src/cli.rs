//! Command-line pieces that every command shares: failures, JSON strings,
//! labels, and the resolution of user-supplied paths.
//!
//! Exit codes: `0` success, `1` operational failure (unknown turn, dirty
//! restore refused, corrupt store, …), `2` usage error.

use vstd::prelude::*;
use vstd::utf8::{decode_utf8, valid_utf8};

use crate::decimal::{decimal, numeral, parse_u64, u64_value};
use crate::object::{Snapshot, SnapshotView};
use crate::restore::same_bytes;
use crate::sha1::hex_digit;
use crate::text::{chars_of, same, string_of, utf8_str};

verus! {

/// What a failure says.
pub struct FailView {
    pub code: int,
    pub msg: Seq<char>,
}

/// A failed command: its exit code and its message.
#[derive(Debug)]
pub struct Fail {
    pub code: i32,
    pub msg: String,
}

impl View for Fail {
    type V = FailView;

    open spec fn view(&self) -> FailView {
        FailView { code: self.code as int, msg: self.msg@ }
    }
}

/// A wrong command line.
pub open spec fn usage_fail(msg: Seq<char>) -> FailView {
    FailView { code: 2, msg }
}

/// A command that could not be carried out.
pub open spec fn op_fail(msg: Seq<char>) -> FailView {
    FailView { code: 1, msg }
}

/// A wrong command line.
pub fn usage(msg: String) -> (r: Fail)
    ensures
        r@ == usage_fail(msg@),
{
    Fail { code: 2, msg }
}

/// A command that could not be carried out.
pub fn op_err(msg: String) -> (r: Fail)
    ensures
        r@ == op_fail(msg@),
{
    Fail { code: 1, msg }
}

/// `"{before}{after}"`
pub fn text2(before: &str, after: &str) -> (r: String)
    ensures
        r@ == before@ + after@,
{
    let mut s = before.to_owned();
    s.append(after);
    s
}

/// `"{before}{middle}{after}"`
pub fn text3(before: &str, middle: &str, after: &str) -> (r: String)
    ensures
        r@ == before@ + middle@ + after@,
{
    let mut s = before.to_owned();
    s.append(middle);
    s.append(after);
    s
}

/// How a character is written inside a JSON string.
pub open spec fn json_char(c: char) -> Seq<char> {
    if c == '"' {
        seq!['\\', '"']
    } else if c == '\\' {
        seq!['\\', '\\']
    } else if c == '\n' {
        seq!['\\', 'n']
    } else if c == '\r' {
        seq!['\\', 'r']
    } else if c == '\t' {
        seq!['\\', 't']
    } else if (c as u32) < 0x20 {
        seq![
            '\\',
            'u',
            '0',
            '0',
            hex_digit((c as u32 / 16) as u8),
            hex_digit((c as u32 % 16) as u8),
        ]
    } else {
        seq![c]
    }
}

/// The inside of a JSON string.
pub open spec fn json_body(s: Seq<char>) -> Seq<char>
    decreases s.len(),
{
    if s.len() == 0 {
        Seq::empty()
    } else {
        json_body(s.drop_last()) + json_char(s.last())
    }
}

/// A JSON string.
pub open spec fn json_text(s: Seq<char>) -> Seq<char> {
    seq!['"'] + json_body(s) + seq!['"']
}

/// A string as JSON.
pub fn json_str(s: &str) -> (r: String)
    ensures
        r@ == json_text(s@),
{
    let chars = chars_of(s);
    let mut out = String::new();
    out.push('"');
    let mut i: usize = 0;
    assert(s@.take(0) =~= Seq::<char>::empty());
    assert(out@ =~= seq!['"'] + json_body(s@.take(0)));
    while i < chars.len()
        invariant
            i <= chars@.len(),
            chars@ == s@,
            out@ == seq!['"'] + json_body(s@.take(i as int)),
        decreases chars@.len() - i,
    {
        let c: char = chars[i];
        let ghost before = out@;
        if c == '"' {
            out.push('\\');
            out.push('"');
        } else if c == '\\' {
            out.push('\\');
            out.push('\\');
        } else if c == '\n' {
            out.push('\\');
            out.push('n');
        } else if c == '\r' {
            out.push('\\');
            out.push('r');
        } else if c == '\t' {
            out.push('\\');
            out.push('t');
        } else if (c as u32) < 0x20 {
            out.push('\\');
            out.push('u');
            out.push('0');
            out.push('0');
            crate::sha1::push_hex_digit(&mut out, (c as u32 / 16) as u8);
            crate::sha1::push_hex_digit(&mut out, (c as u32 % 16) as u8);
        } else {
            out.push(c);
        }
        proof {
            assert(out@ =~= before + json_char(c));
            assert(s@.take(i + 1).drop_last() =~= s@.take(i as int));
            assert(out@ =~= seq!['"'] + json_body(s@.take(i + 1)));
        }
        i = i + 1;
    }
    assert(s@.take(s@.len() as int) =~= s@);
    out.push('"');
    assert(out@ =~= json_text(s@));
    out
}

/// The first eight characters of an id.
pub open spec fn shortened(id: Seq<char>) -> Seq<char> {
    if id.len() <= 8 {
        id
    } else {
        id.take(8)
    }
}

/// The first eight characters of an id.
pub fn short(id: &str) -> (r: String)
    ensures
        r@ == shortened(id@),
{
    let chars = chars_of(id);
    let end: usize = if chars.len() <= 8 {
        chars.len()
    } else {
        8
    };
    let r = string_of(chars.as_slice(), 0, end);
    assert(r@ =~= shortened(id@));
    r
}

/// A snapshot in one line: its agent and its label.
pub open spec fn description(snap: SnapshotView) -> Seq<char> {
    if snap.agent.len() == 0 && snap.label.len() == 0 {
        "(no label)"@
    } else if snap.agent.len() == 0 {
        snap.label
    } else if snap.label.len() == 0 {
        snap.agent + ": (no label)"@
    } else {
        snap.agent + ": "@ + snap.label
    }
}

/// A snapshot in one line: its agent and its label.
pub fn describe(snap: &Snapshot) -> (r: String)
    ensures
        r@ == description(snap@),
{
    if snap.agent.as_str().is_empty() {
        if snap.label.as_str().is_empty() {
            "(no label)".to_string()
        } else {
            snap.label.clone()
        }
    } else {
        let mut s = snap.agent.clone();
        if snap.label.as_str().is_empty() {
            s.append(": (no label)");
        } else {
            s.append(": ");
            s.append(snap.label.as_str());
        }
        s
    }
}

/// The text, cut to `max` characters with a two-dot ellipsis where it is longer.
pub open spec fn truncated(s: Seq<char>, max: int) -> Seq<char> {
    if s.len() <= max {
        s
    } else {
        s.take(max - 2) + ".."@
    }
}

/// Cut a text to `max` characters, with a two-dot ellipsis where it is longer.
pub fn truncate(s: &str, max: usize) -> (r: String)
    requires
        s@.len() <= max || max >= 2,
    ensures
        r@ == truncated(s@, max as int),
{
    let chars = chars_of(s);
    if chars.len() <= max {
        s.to_owned()
    } else {
        let mut cut = string_of(chars.as_slice(), 0, max - 2);
        assert(cut@ =~= s@.take(max - 2));
        cut.append("..");
        cut
    }
}

/// One side of a diff: a recorded turn, or the working tree.
#[derive(Debug, Clone, Copy, PartialEq, Eq, Structural)]
pub enum Side {
    Turn(u64),
    Working,
}

/// The name of a side.
pub open spec fn side_text(side: Side) -> Seq<char> {
    match side {
        Side::Turn(t) => "turn "@ + numeral(t as nat),
        Side::Working => "wt"@,
    }
}

/// The name of a side.
pub fn side_name(side: Side) -> (r: String)
    ensures
        r@ == side_text(side),
{
    match side {
        Side::Turn(t) => {
            let n = decimal(t);
            let mut s = "turn ".to_string();
            s.append(n.as_str());
            s
        },
        Side::Working => "wt".to_string(),
    }
}

/// The side that an argument names.
pub open spec fn named_side(spec_text: Seq<char>) -> Result<Side, FailView> {
    if spec_text == "wt"@ || spec_text == "@"@ || spec_text == "worktree"@ {
        Ok(Side::Working)
    } else {
        match u64_value(spec_text) {
            Some(n) => Ok(Side::Turn(n)),
            None => Err(
                usage_fail(
                    "'"@ + spec_text + "' is not a turn number or 'wt' (see 'snapref diff --help')"@,
                ),
            ),
        }
    }
}

/// The side that an argument names.
pub fn parse_side(text: &str) -> (r: Result<Side, Fail>)
    ensures
        match r {
            Ok(side) => named_side(text@) == Ok::<Side, FailView>(side),
            Err(f) => named_side(text@) == Err::<Side, FailView>(f@),
        },
{
    if same(text, "wt") || same(text, "@") || same(text, "worktree") {
        return Ok(Side::Working);
    }
    match parse_u64(text) {
        Some(n) => Ok(Side::Turn(n)),
        None => Err(
            usage(text3("'", text, "' is not a turn number or 'wt' (see 'snapref diff --help')")),
        ),
    }
}

/// The parts of a path between its slashes.
pub open spec fn path_parts(path: Seq<u8>) -> Seq<Seq<u8>>
    decreases path.len(),
{
    if path.len() == 0 {
        seq![Seq::empty()]
    } else {
        let before = path_parts(path.drop_last());
        if path.last() == 47 {
            before.push(Seq::empty())
        } else {
            before.drop_last().push(before.last().push(path.last()))
        }
    }
}

/// The names that the first `n` parts lead to: an empty part and `.` lead
/// nowhere, `..` goes up as far as there is anything above.
pub open spec fn resolved(parts: Seq<Seq<u8>>, n: nat) -> Seq<Seq<u8>>
    decreases n,
{
    if n == 0 || n > parts.len() {
        Seq::empty()
    } else {
        let before = resolved(parts, (n - 1) as nat);
        let part = parts[n - 1];
        if part.len() == 0 || part == seq![46u8] {
            before
        } else if part == seq![46u8, 46u8] {
            if before.len() == 0 {
                before
            } else {
                before.drop_last()
            }
        } else {
            before.push(part)
        }
    }
}

/// The names on a path, after `.` and `..` were resolved lexically.
pub open spec fn normal_names(path: Seq<u8>) -> Seq<Seq<u8>> {
    resolved(path_parts(path), path_parts(path).len())
}

/// The names, with a slash between neighbours.
pub open spec fn joined_names(names: Seq<Seq<u8>>) -> Seq<u8>
    decreases names.len(),
{
    if names.len() == 0 {
        Seq::empty()
    } else if names.len() == 1 {
        names[0]
    } else {
        joined_names(names.drop_last()).push(47) + names.last()
    }
}

/// The contents of a list of names.
pub open spec fn byte_views(list: Seq<Vec<u8>>) -> Seq<Seq<u8>> {
    list.map_values(|v: Vec<u8>| v@)
}

/// Lexically normalize a path (resolve `.` and `..` without touching the file
/// system) into its names.
pub fn normal_path(path: &[u8]) -> (r: Vec<Vec<u8>>)
    ensures
        byte_views(r@) == normal_names(path@),
{
    let parts = split_parts(path);
    let ghost pv = byte_views(parts@);
    let mut out: Vec<Vec<u8>> = Vec::new();
    let mut i: usize = 0;
    assert(byte_views(out@) =~= Seq::<Seq<u8>>::empty());
    while i < parts.len()
        invariant
            i <= parts@.len(),
            pv == byte_views(parts@),
            pv == path_parts(path@),
            byte_views(out@) == resolved(pv, i as nat),
        decreases parts@.len() - i,
    {
        let part = &parts[i];
        assert(pv[i as int] == part@);
        let ghost before = out@;
        if part.len() == 0 {
        } else if part.len() == 1 && part[0] == 46 {
            assert(part@ =~= seq![46u8]);
        } else if part.len() == 2 && part[0] == 46 && part[1] == 46 {
            assert(part@ =~= seq![46u8, 46u8]);
            assert(seq![46u8, 46u8].len() != seq![46u8].len());
            out.pop();
            assert(before.len() > 0 ==> byte_views(out@) =~= byte_views(before).drop_last());
        } else {
            proof {
                if part@ == seq![46u8] {
                    assert(part@[0] == 46);
                }
                if part@ == seq![46u8, 46u8] {
                    assert(part@[0] == 46 && part@[1] == 46);
                }
            }
            let mut copy: Vec<u8> = Vec::new();
            copy.extend_from_slice(part.as_slice());
            assert(copy@ =~= part@);
            out.push(copy);
            assert(byte_views(out@) =~= byte_views(before).push(part@));
        }
        i = i + 1;
    }
    out
}

/// The parts of a path between its slashes.
fn split_parts(path: &[u8]) -> (r: Vec<Vec<u8>>)
    ensures
        byte_views(r@) == path_parts(path@),
{
    let mut out: Vec<Vec<u8>> = Vec::new();
    let mut part: Vec<u8> = Vec::new();
    let mut i: usize = 0;
    assert(path@.take(0) =~= Seq::<u8>::empty());
    assert(byte_views(out@).push(part@) =~= path_parts(path@.take(0)));
    while i < path.len()
        invariant
            i <= path@.len(),
            byte_views(out@).push(part@) == path_parts(path@.take(i as int)),
        decreases path@.len() - i,
    {
        let ghost head = byte_views(out@);
        let ghost cur = part@;
        proof {
            assert(path@.take(i + 1).drop_last() =~= path@.take(i as int));
            assert(head.push(cur).drop_last() =~= head);
        }
        if path[i] == 47 {
            let ghost before = out@;
            out.push(part);
            part = Vec::new();
            assert(byte_views(out@) =~= byte_views(before).push(cur));
            assert(part@ =~= Seq::<u8>::empty());
        } else {
            part.push(path[i]);
        }
        i = i + 1;
    }
    let ghost before = out@;
    let ghost cur = part@;
    out.push(part);
    assert(byte_views(out@) =~= byte_views(before).push(cur));
    assert(path@.take(path@.len() as int) =~= path@);
    out
}

/// The path whose `.` and `..` are resolved; it is absolute when `path` is.
pub open spec fn normal_form(path: Seq<u8>) -> Seq<u8> {
    if path.len() > 0 && path[0] == 47 {
        seq![47u8] + joined_names(normal_names(path))
    } else {
        joined_names(normal_names(path))
    }
}

/// Lexically normalize a path (resolve `.` and `..` without touching the file
/// system).
pub fn normalize(path: &[u8]) -> (r: Vec<u8>)
    ensures
        r@ == normal_form(path@),
{
    let names = normal_path(path);
    let mut out: Vec<u8> = Vec::new();
    if path.len() > 0 && path[0] == 47 {
        out.push(47);
    }
    let tail = join_names(&names, 0);
    assert(byte_views(names@).skip(0) =~= byte_views(names@));
    out.extend_from_slice(tail.as_slice());
    assert(out@ =~= normal_form(path@));
    out
}

/// The names from `from` on, with a slash between neighbours.
fn join_names(names: &Vec<Vec<u8>>, from: usize) -> (r: Vec<u8>)
    requires
        from <= names@.len(),
    ensures
        r@ == joined_names(byte_views(names@).skip(from as int)),
{
    let ghost v = byte_views(names@).skip(from as int);
    let mut out: Vec<u8> = Vec::new();
    let mut i: usize = from;
    assert(v.take(0) =~= Seq::<Seq<u8>>::empty());
    while i < names.len()
        invariant
            from <= i <= names@.len(),
            v == byte_views(names@).skip(from as int),
            out@ == joined_names(v.take(i - from)),
        decreases names@.len() - i,
    {
        let ghost before = out@;
        let ghost seen = v.take(i - from + 1);
        proof {
            assert(seen.drop_last() =~= v.take(i - from));
            assert(seen.last() == names@[i as int]@);
        }
        if i > from {
            out.push(47);
        }
        out.extend_from_slice(names[i].as_slice());
        proof {
            if i > from {
                assert(out@ =~= before.push(47) + names@[i as int]@);
            } else {
                assert(seen.len() == 1);
                assert(out@ =~= seen[0]);
            }
        }
        i = i + 1;
    }
    assert(v.take(v.len() as int) =~= v);
    out
}

/// The absolute path that `raw` names when it is taken from `base`.
pub open spec fn absolute(base: Seq<u8>, raw: Seq<u8>) -> Seq<u8> {
    if raw.len() > 0 && raw[0] == 47 {
        raw
    } else {
        base.push(47) + raw
    }
}

/// The path below the working tree that `raw` names when it is taken from
/// `base`, or why there is none.
pub open spec fn relative_path(work: Seq<u8>, base: Seq<u8>, raw: Seq<char>) -> Result<
    Seq<char>,
    FailView,
> {
    let root = normal_names(work);
    let names = normal_names(absolute(base, vstd::utf8::encode_utf8(raw)));
    let rest = joined_names(names.skip(root.len() as int));
    if !root.is_prefix_of(names) {
        Err(op_fail("path is outside the working tree: "@ + raw))
    } else if !valid_utf8(rest) {
        Err(op_fail("path is not valid UTF-8: "@ + raw))
    } else if rest.len() == 0 {
        Err(
            op_fail(
                "path resolves to the working-tree root; name a file or subdirectory"@,
            ),
        )
    } else {
        Ok(decode_utf8(rest))
    }
}

/// Resolve a user-supplied path to a `/`-separated path relative to the root of
/// the working tree. `work` and `base` are absolute paths without `..`.
pub fn rel_path(work: &[u8], base: &[u8], raw: &str) -> (r: Result<String, Fail>)
    ensures
        match r {
            Ok(rel) => relative_path(work@, base@, raw@) == Ok::<Seq<char>, FailView>(rel@),
            Err(f) => relative_path(work@, base@, raw@) == Err::<Seq<char>, FailView>(f@),
        },
{
    let bytes = raw.as_bytes();
    let mut path: Vec<u8> = Vec::new();
    if bytes.len() == 0 || bytes[0] != 47 {
        path.extend_from_slice(base);
        path.push(47);
    }
    path.extend_from_slice(bytes);
    assert(path@ =~= absolute(base@, bytes@));
    let root = normal_path(work);
    let names = normal_path(path.as_slice());
    let ghost rv = byte_views(root@);
    let ghost nv = byte_views(names@);
    assert(rv.len() == root@.len() && nv.len() == names@.len());
    let mut inside: bool = root.len() <= names.len();
    let mut i: usize = 0;
    while inside && i < root.len()
        invariant
            i <= root@.len(),
            rv == byte_views(root@),
            nv == byte_views(names@),
            inside ==> root@.len() <= names@.len(),
            inside ==> forall|j: int| 0 <= j < i ==> rv[j] == nv[j],
            !inside ==> !rv.is_prefix_of(nv),
        decreases root@.len() - i,
    {
        assert(rv[i as int] == root@[i as int]@);
        assert(nv[i as int] == names@[i as int]@);
        if !same_bytes(&root[i], &names[i]) {
            proof {
                if rv.is_prefix_of(nv) {
                    assert(nv.subrange(0, rv.len() as int)[i as int] == nv[i as int]);
                }
            }
            inside = false;
        }
        i = i + 1;
    }
    if !inside {
        return Err(op_err(text2("path is outside the working tree: ", raw)));
    }
    assert(rv =~= nv.subrange(0, rv.len() as int));
    let rest = join_names(&names, root.len());
    match utf8_str(rest.as_slice()) {
        None => Err(op_err(text2("path is not valid UTF-8: ", raw))),
        Some(rel) => {
            if rest.len() == 0 {
                Err(
                    op_err(
                        "path resolves to the working-tree root; name a file or subdirectory".to_string(),
                    ),
                )
            } else {
                Ok(rel.to_owned())
            }
        },
    }
}

/// A JSON string holds no raw control character.
pub proof fn law_json_has_no_control_characters(s: Seq<char>)
    ensures
        forall|i: int| 0 <= i < json_text(s).len() ==> (#[trigger] json_text(s)[i]) as u32 >= 0x20,
{
    lemma_json_body(s);
    let body = json_body(s);
    assert forall|i: int| 0 <= i < json_text(s).len() implies (#[trigger] json_text(s)[i]) as u32
        >= 0x20 by {
        if 1 <= i < 1 + body.len() {
            assert(json_text(s)[i] == body[i - 1]);
        }
    }
}

proof fn lemma_json_body(s: Seq<char>)
    ensures
        forall|i: int| 0 <= i < json_body(s).len() ==> (#[trigger] json_body(s)[i]) as u32 >= 0x20,
    decreases s.len(),
{
    if s.len() > 0 {
        let before = json_body(s.drop_last());
        let more = json_char(s.last());
        lemma_json_body(s.drop_last());
        assert forall|i: int| 0 <= i < json_body(s).len() implies (#[trigger] json_body(s)[i]) as u32
            >= 0x20 by {
            if i < before.len() {
                assert(json_body(s)[i] == before[i]);
            } else {
                assert(json_body(s)[i] == more[i - before.len()]);
            }
        }
    }
}

/// Different strings are different in JSON, so that nothing is lost.
pub proof fn law_json_is_unambiguous(s: Seq<char>, t: Seq<char>)
    requires
        json_text(s) == json_text(t),
    ensures
        s == t,
{
    let a = json_text(s);
    let b = json_text(t);
    assert(json_body(s) =~= a.subrange(1, a.len() - 1));
    assert(json_body(t) =~= b.subrange(1, b.len() - 1));
    lemma_json_front(s, t);
}

/// The inside of a JSON string, from its first character on.
proof fn lemma_json_first(s: Seq<char>)
    requires
        s.len() > 0,
    ensures
        json_body(s) == json_char(s[0]) + json_body(s.drop_first()),
    decreases s.len(),
{
    let tail = s.drop_first();
    if s.len() == 1 {
        assert(s.drop_last() =~= Seq::<char>::empty());
        assert(tail =~= Seq::<char>::empty());
        assert(json_body(Seq::<char>::empty()) =~= Seq::<char>::empty());
        assert(json_body(s) =~= json_char(s[0]) + json_body(tail));
    } else {
        lemma_json_first(s.drop_last());
        assert(s.drop_last().drop_first() =~= tail.drop_last());
        assert(json_body(s) =~= json_char(s[0]) + json_body(tail));
    }
}

/// No character's JSON form starts another one's.
proof fn lemma_json_char_prefix(c: char, d: char, x: Seq<char>, y: Seq<char>)
    requires
        json_char(c) + x == json_char(d) + y,
    ensures
        c == d,
        x == y,
{
    let a = json_char(c) + x;
    let b = json_char(d) + y;
    assert(a[0] == b[0]);
    if a[0] == '\\' {
        assert(a[1] == b[1]);
        if a[1] == 'u' {
            assert(a[4] == b[4] && a[5] == b[5]);
            assert(a[4] == hex_digit((c as u32 / 16) as u8) && b[4] == hex_digit(
                (d as u32 / 16) as u8,
            ));
            assert(a[5] == hex_digit((c as u32 % 16) as u8) && b[5] == hex_digit(
                (d as u32 % 16) as u8,
            ));
            assert(c as u32 / 16 == d as u32 / 16);
            assert(c as u32 % 16 == d as u32 % 16);
            assert(c as u32 == d as u32);
        }
    }
    assert(c == d);
    let k = json_char(c).len() as int;
    assert(x =~= a.skip(k));
    assert(y =~= b.skip(k));
}

proof fn lemma_json_front(s: Seq<char>, t: Seq<char>)
    requires
        json_body(s) == json_body(t),
    ensures
        s == t,
    decreases s.len(),
{
    if s.len() > 0 {
        lemma_json_first(s);
        assert(json_char(s[0]).len() > 0);
        assert(json_body(s).len() > 0);
    }
    if t.len() > 0 {
        lemma_json_first(t);
        assert(json_char(t[0]).len() > 0);
        assert(json_body(t).len() > 0);
    }
    if s.len() == 0 || t.len() == 0 {
        assert(json_body(Seq::<char>::empty()).len() == 0);
        assert(s.len() == 0 && t.len() == 0);
        assert(s =~= t);
    } else {
        lemma_json_char_prefix(s[0], t[0], json_body(s.drop_first()), json_body(t.drop_first()));
        lemma_json_front(s.drop_first(), t.drop_first());
        assert(s =~= seq![s[0]] + s.drop_first());
        assert(t =~= seq![t[0]] + t.drop_first());
    }
}

/// A cut text fits its width.
pub proof fn law_truncated_text_fits(s: Seq<char>, max: int)
    requires
        max >= 2,
    ensures
        truncated(s, max).len() <= max,
{
    reveal_strlit("..");
}

/// A resolved path has no empty name, no `.` and no `..`.
pub proof fn law_normal_path_is_resolved(path: Seq<u8>)
    ensures
        forall|i: int|
            0 <= i < normal_names(path).len() ==> (#[trigger] normal_names(path)[i]).len() > 0
                && normal_names(path)[i] != seq![46u8] && normal_names(path)[i] != seq![
                46u8,
                46u8,
            ],
{
    lemma_resolved(path_parts(path), path_parts(path).len());
}

proof fn lemma_resolved(parts: Seq<Seq<u8>>, n: nat)
    requires
        n <= parts.len(),
    ensures
        forall|i: int|
            0 <= i < resolved(parts, n).len() ==> (#[trigger] resolved(parts, n)[i]).len() > 0
                && resolved(parts, n)[i] != seq![46u8] && resolved(parts, n)[i] != seq![
                46u8,
                46u8,
            ],
    decreases n,
{
    if n > 0 {
        lemma_resolved(parts, (n - 1) as nat);
        let before = resolved(parts, (n - 1) as nat);
        let out = resolved(parts, n);
        assert forall|i: int| 0 <= i < out.len() implies (#[trigger] out[i]).len() > 0 && out[i]
            != seq![46u8] && out[i] != seq![46u8, 46u8] by {
            if i < before.len() {
                assert(out[i] == before[i]);
            }
        }
    }
}

} // verus!
