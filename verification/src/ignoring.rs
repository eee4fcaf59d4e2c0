//! What a line of an ignore file means, wildcard by wildcard.

use vstd::prelude::*;
use vstd::utf8::{encode_utf8, encode_utf8_decode_utf8, encode_utf8_valid_utf8};

use crate::glob::{
    ignore_file, name_matches, parsed_pattern, parsed_patterns, path_matches, without_slashes,
    PatternView,
};
use crate::guard::patterns_after;
use crate::object::SnapshotView;
use crate::snapshot::snapshot_file;
use crate::store::StoreView;
use crate::text::{components, nonempty, pieces, text_lines, trimmed};
use crate::walker::ignored;

verus! {

/// A component pattern is read byte by byte. Nothing matches only the empty
/// name. `*` matches any number of bytes, none included, and then the rest has to
/// match. `?` matches one byte, whatever it is. Every other byte matches itself.
pub proof fn law_component_patterns_match_byte_by_byte(
    first: u8,
    rest: Seq<u8>,
    name: Seq<u8>,
)
    ensures
        name_matches(Seq::empty(), name) <==> name.len() == 0,
        first == 42 ==> (name_matches(seq![first] + rest, name) <==> exists|k: int|
            0 <= k <= name.len() && #[trigger] name_matches(rest, name.skip(k))),
        first == 63 ==> (name_matches(seq![first] + rest, name) <==> name.len() > 0 && name_matches(
            rest,
            name.skip(1),
        )),
        first != 42 && first != 63 ==> (name_matches(seq![first] + rest, name) <==> name.len() > 0
            && name[0] == first && name_matches(rest, name.skip(1))),
    decreases name.len(),
{
    let whole = seq![first] + rest;
    assert(whole[0] == first);
    assert(whole.drop_first() =~= rest);
    assert(name.skip(0) =~= name);
    if name.len() > 0 {
        assert(name.drop_first() =~= name.skip(1));
    }
    if first == 42 {
        if name.len() > 0 {
            let tail = name.drop_first();
            law_component_patterns_match_byte_by_byte(first, rest, tail);
            if name_matches(whole, tail) {
                let k = choose|k: int|
                    0 <= k <= tail.len() && #[trigger] name_matches(rest, tail.skip(k));
                assert(tail.skip(k) =~= name.skip(k + 1));
                assert(name_matches(rest, name.skip(k + 1)));
            }
            if exists|k: int| 0 <= k <= name.len() && #[trigger] name_matches(rest, name.skip(k)) {
                let k = choose|k: int|
                    0 <= k <= name.len() && #[trigger] name_matches(rest, name.skip(k));
                if k > 0 {
                    assert(name.skip(k) =~= tail.skip(k - 1));
                    assert(name_matches(rest, tail.skip(k - 1)));
                }
            }
            if name_matches(rest, name) {
                assert(name_matches(rest, name.skip(0)));
            }
        } else {
            if name_matches(rest, name) {
                assert(name_matches(rest, name.skip(0)));
            }
            if exists|k: int| 0 <= k <= name.len() && #[trigger] name_matches(rest, name.skip(k)) {
                let k = choose|k: int|
                    0 <= k <= name.len() && #[trigger] name_matches(rest, name.skip(k));
                assert(k == 0);
            }
        }
    }
}

/// A path pattern is read component by component. Nothing matches only the empty
/// path. `**` matches any number of components, none included, and then the rest
/// has to match. Every other component matches one component of the path.
pub proof fn law_path_patterns_match_component_by_component(
    first: Seq<char>,
    rest: Seq<Seq<char>>,
    comps: Seq<Seq<char>>,
)
    ensures
        path_matches(Seq::empty(), comps) <==> comps.len() == 0,
        first == "**"@ ==> (path_matches(seq![first] + rest, comps) <==> exists|k: int|
            0 <= k <= comps.len() && #[trigger] path_matches(rest, comps.skip(k))),
        first != "**"@ ==> (path_matches(seq![first] + rest, comps) <==> comps.len() > 0
            && name_matches(encode_utf8(first), encode_utf8(comps[0])) && path_matches(
            rest,
            comps.skip(1),
        )),
    decreases comps.len(),
{
    let whole = seq![first] + rest;
    assert(whole[0] == first);
    assert(whole.drop_first() =~= rest);
    assert(comps.skip(0) =~= comps);
    if comps.len() > 0 {
        assert(comps.drop_first() =~= comps.skip(1));
    }
    if first == "**"@ {
        if comps.len() > 0 {
            let tail = comps.drop_first();
            law_path_patterns_match_component_by_component(first, rest, tail);
            if path_matches(whole, tail) {
                let k = choose|k: int|
                    0 <= k <= tail.len() && #[trigger] path_matches(rest, tail.skip(k));
                assert(tail.skip(k) =~= comps.skip(k + 1));
                assert(path_matches(rest, comps.skip(k + 1)));
            }
            if exists|k: int|
                0 <= k <= comps.len() && #[trigger] path_matches(rest, comps.skip(k)) {
                let k = choose|k: int|
                    0 <= k <= comps.len() && #[trigger] path_matches(rest, comps.skip(k));
                if k > 0 {
                    assert(comps.skip(k) =~= tail.skip(k - 1));
                    assert(path_matches(rest, tail.skip(k - 1)));
                }
            }
            if path_matches(rest, comps) {
                assert(path_matches(rest, comps.skip(0)));
            }
        } else {
            if path_matches(rest, comps) {
                assert(path_matches(rest, comps.skip(0)));
            }
            if exists|k: int|
                0 <= k <= comps.len() && #[trigger] path_matches(rest, comps.skip(k)) {
                let k = choose|k: int|
                    0 <= k <= comps.len() && #[trigger] path_matches(rest, comps.skip(k));
                assert(k == 0);
            }
        }
    }
}

proof fn lemma_slashes_off(body: Seq<char>, n: nat)
    requires
        body.len() == 0 || body.last() != '/',
    ensures
        without_slashes(body + Seq::new(n, |i: int| '/')) == body,
    decreases n,
{
    let whole = body + Seq::new(n, |i: int| '/');
    if n == 0 {
        assert(whole =~= body);
    } else {
        assert(whole.drop_last() =~= body + Seq::new((n - 1) as nat, |i: int| '/'));
        assert(whole.last() == '/');
        lemma_slashes_off(body, (n - 1) as nat);
    }
}

/// The line with white space around it taken off is `body` and then `slashes`
/// slashes, which are all that end it.
pub open spec fn reads_as(line: Seq<char>, body: Seq<char>, slashes: nat) -> bool {
    &&& trimmed(line) == body + Seq::new(slashes, |i: int| '/')
    &&& body.len() > 0
    &&& body.last() != '/'
}

/// A line of an ignore file that starts with `#` or `!` means nothing. Otherwise
/// a slash at its end limits it to directories, and a slash anywhere else ties it
/// to the root of the working tree: the whole path has to match, component by
/// component. Without such a slash the line is matched against the last name of
/// a path, at any depth.
pub proof fn law_ignore_line_means_what_it_says(
    line: Seq<char>,
    body: Seq<char>,
    slashes: nat,
    rel: Seq<char>,
    is_dir: bool,
)
    requires
        reads_as(line, body, slashes),
    ensures
        body[0] == '#' || body[0] == '!' ==> parsed_pattern(line) is None,
        body[0] != '#' && body[0] != '!' ==> {
            &&& parsed_pattern(line) is Some
            &&& parsed_pattern(line)->0.matches(rel, is_dir) <==> {
                &&& slashes > 0 ==> is_dir
                &&& components(rel).len() > 0
                &&& if exists|i: int| 0 <= i < body.len() && #[trigger] body[i] == '/' {
                    path_matches(components(body), components(rel))
                } else {
                    name_matches(encode_utf8(body), encode_utf8(components(rel).last()))
                }
            }
        },
{
    let t = trimmed(line);
    lemma_slashes_off(body, slashes);
    assert(t[0] == body[0]);
    assert(without_slashes(t) == body);
    assert(slashes > 0 <==> t.last() == '/') by {
        if slashes == 0 {
            assert(t =~= body);
        }
    }
    lemma_some_component(body);
    if body.contains('/') {
        let i = choose|i: int| 0 <= i < body.len() && body[i] == '/';
        assert(body[i] == '/');
    } else {
        if exists|i: int| 0 <= i < body.len() && #[trigger] body[i] == '/' {
            let i = choose|i: int| 0 <= i < body.len() && #[trigger] body[i] == '/';
            assert(body.contains(body[i]));
        }
        crate::text::lemma_pieces_single(body, '/');
        assert(seq![body].drop_last() =~= Seq::<Seq<char>>::empty());
        assert(nonempty(Seq::<Seq<char>>::empty()) =~= Seq::<Seq<char>>::empty());
        assert(components(body) =~= seq![body]);
        assert(components(body)[0] == body);
    }
}

/// A text that does not end with a slash has a last component.
proof fn lemma_some_component(body: Seq<char>)
    requires
        body.len() > 0,
        body.last() != '/',
    ensures
        components(body).len() > 0,
{
    crate::text::lemma_pieces_nonempty(body.drop_last(), '/');
    assert(pieces(body, '/').last().len() > 0);
}

/// A line of nothing but white space and slashes means nothing.
pub proof fn law_blank_lines_mean_nothing(line: Seq<char>, slashes: nat)
    requires
        trimmed(line) == Seq::new(slashes, |i: int| '/'),
    ensures
        parsed_pattern(line) is None,
{
    let none = Seq::<char>::empty();
    let t = trimmed(line);
    assert(none + Seq::new(slashes, |i: int| '/') =~= t);
    lemma_slashes_off(none, slashes);
    crate::text::lemma_pieces_single(none, '/');
    assert(pieces(none, '/') =~= seq![none]);
    assert(seq![none].drop_last() =~= Seq::<Seq<char>>::empty());
    assert(nonempty(Seq::<Seq<char>>::empty()) =~= Seq::<Seq<char>>::empty());
    assert(components(none) =~= Seq::<Seq<char>>::empty());
}

/// An ignore file hides a path exactly where one of its lines does: every line
/// counts, whatever its place.
pub proof fn law_every_ignore_line_counts(text: Seq<char>, rel: Seq<char>, is_dir: bool)
    ensures
        ignored(ignore_file(text), rel, is_dir) <==> exists|i: int|
            0 <= i < text_lines(text).len() && parsed_pattern(#[trigger] text_lines(text)[i])
                is Some && parsed_pattern(text_lines(text)[i])->0.matches(rel, is_dir),
{
    lemma_lines_count(text_lines(text), rel, is_dir);
}

proof fn lemma_lines_count(lines: Seq<Seq<char>>, rel: Seq<char>, is_dir: bool)
    ensures
        ignored(parsed_patterns(lines), rel, is_dir) <==> exists|i: int|
            0 <= i < lines.len() && parsed_pattern(#[trigger] lines[i]) is Some && parsed_pattern(
                lines[i],
            )->0.matches(rel, is_dir),
    decreases lines.len(),
{
    if lines.len() > 0 {
        let head = lines.drop_last();
        lemma_lines_count(head, rel, is_dir);
        let a = parsed_patterns(head);
        let b = parsed_patterns(lines);
        let last = lines.len() - 1;
        if ignored(b, rel, is_dir) {
            let k = choose|k: int| 0 <= k < b.len() && (#[trigger] b[k]).matches(rel, is_dir);
            if k < a.len() {
                assert(a[k] == b[k]);
                assert(ignored(a, rel, is_dir));
                let i = choose|i: int|
                    0 <= i < head.len() && parsed_pattern(#[trigger] head[i]) is Some
                        && parsed_pattern(head[i])->0.matches(rel, is_dir);
                assert(lines[i] == head[i]);
            } else {
                assert(parsed_pattern(lines[last]) is Some);
            }
        }
        if exists|i: int|
            0 <= i < lines.len() && parsed_pattern(#[trigger] lines[i]) is Some && parsed_pattern(
                lines[i],
            )->0.matches(rel, is_dir) {
            let i = choose|i: int|
                0 <= i < lines.len() && parsed_pattern(#[trigger] lines[i]) is Some
                    && parsed_pattern(lines[i])->0.matches(rel, is_dir);
            if i < last {
                assert(head[i] == lines[i]);
                assert(ignored(a, rel, is_dir));
                let k = choose|k: int| 0 <= k < a.len() && (#[trigger] a[k]).matches(rel, is_dir);
                assert(b[k] == a[k]);
            } else {
                assert(b[b.len() - 1].matches(rel, is_dir));
            }
        }
    }
}

/// After a restore the ignore file of the target turn counts as if it stood in the
/// working tree; where the target has none, the one of the working tree counts.
pub proof fn law_restored_ignore_file_counts(s: StoreView, target: SnapshotView, text: Seq<char>)
    ensures
        snapshot_file(s.objects, target.tree, ".snaprefignore"@) matches Ok(Some((bytes, _)))
            && bytes == encode_utf8(text) ==> patterns_after(s, target) == (StoreView {
            ignore: Some(text),
            ..s
        }).patterns(),
        snapshot_file(s.objects, target.tree, ".snaprefignore"@) == Ok::<
            Option<(Seq<u8>, bool)>,
            Seq<char>,
        >(None) ==> patterns_after(s, target) == s.patterns(),
        s.ignore is None ==> s.patterns() == Seq::<PatternView>::empty(),
        s.ignore matches Some(lines) ==> s.patterns() == ignore_file(lines),
{
    encode_utf8_valid_utf8(text);
    encode_utf8_decode_utf8(text);
}

} // verus!
