//! What `diff` reports: every path that differs between its two sides, with what
//! happened to it.

use vstd::prelude::*;

use crate::cli::{json_text, side_text, Side};
use crate::compare::{
    all_paths, bytes_entry, change_status, diff_output, diff_upto, in_scope, option_lossy,
    option_side_bytes, path_entry, side_bytes, side_file, side_files, side_paths, some_binary,
    summary_text, text_entry, without_repeats, DiffReplyView, SideFileView, SourceView,
};
use crate::decimal::numeral;
use crate::diff::{law_line_script_is_shortest, line_script, unified_text};
use crate::listing::distinct_paths;
use crate::object::fetched;
use crate::order::{in_order, law_sorted_by, lemma_text_order, sorted_by, text_before};
use crate::picking::{at_or_below, lemma_in_scope};
use crate::reporting::{ascending_paths, in_a_row, lemma_envelope};
use crate::script::{deleted, distance};
use crate::snapshot::{changed_lines, snapshot_files, LoadedView};
use crate::statistics::lemma_balance;
use crate::store::StoreView;
use crate::text::{joined_by, lines_of, lossy_text};

verus! {

/// A side has a file at the path, with these bytes and this exec bit.
pub open spec fn stands_on(
    s: StoreView,
    work: Seq<LoadedView>,
    side: Side,
    rel: Seq<char>,
    bytes: Seq<u8>,
    executable: bool,
) -> bool {
    match side {
        Side::Turn(t) => {
            let files = snapshot_files(s.objects, s.snapshot(t)->Ok_0.tree)->Ok_0;
            exists|k: int|
                0 <= k < files.len() && (#[trigger] files[k]).rel == rel && files[k].executable
                    == executable && fetched(s.objects, files[k].id) is Ok && fetched(
                    s.objects,
                    files[k].id,
                )->Ok_0.1 == bytes
        },
        Side::Working => exists|i: int|
            0 <= i < work.len() && (#[trigger] work[i]).rel == rel && work[i].executable
                == executable && work[i].data == Ok::<Seq<u8>, Seq<char>>(bytes),
    }
}

/// A side has a file at the path.
pub open spec fn has_on(s: StoreView, work: Seq<LoadedView>, side: Side, rel: Seq<char>) -> bool {
    match side {
        Side::Turn(t) => {
            let files = snapshot_files(s.objects, s.snapshot(t)->Ok_0.tree)->Ok_0;
            exists|k: int| 0 <= k < files.len() && (#[trigger] files[k]).rel == rel
        },
        Side::Working => exists|i: int| 0 <= i < work.len() && (#[trigger] work[i]).rel == rel,
    }
}

/// A side can be listed, and no path is listed twice.
pub open spec fn side_listed(s: StoreView, work: Seq<LoadedView>, side: Side) -> bool {
    match side {
        Side::Turn(t) => s.snapshot(t) is Ok && snapshot_files(
            s.objects,
            s.snapshot(t)->Ok_0.tree,
        ) is Ok && distinct_paths(
            snapshot_files(s.objects, s.snapshot(t)->Ok_0.tree)->Ok_0,
        ),
        Side::Working => forall|i: int, j: int|
            0 <= i < work.len() && 0 <= j < work.len() && (#[trigger] work[i]).rel == (
            #[trigger] work[j]).rel ==> i == j,
    }
}

/// A path with what stands at it on both sides: bytes and exec bit, or nothing.
pub struct Changed {
    pub rel: Seq<char>,
    pub old: Option<(Seq<u8>, bool)>,
    pub new: Option<(Seq<u8>, bool)>,
}

/// A NUL byte stands in the first 8 KiB.
pub open spec fn sniffed_binary(side: Option<(Seq<u8>, bool)>) -> bool {
    side matches Some((bytes, _)) && exists|i: int|
        0 <= i < bytes.len() && i < 8192 && #[trigger] bytes[i] == 0
}

/// The text of a side; nothing is the empty text.
pub open spec fn text_on(side: Option<(Seq<u8>, bool)>) -> Seq<char> {
    match side {
        Some((bytes, _)) => lossy_text(bytes),
        None => Seq::empty(),
    }
}

/// The sides differ: one of them has no file, the bytes differ, or the exec bit
/// does. Bytes that are no UTF-8 count by the text that is read from them.
pub open spec fn differ(c: Changed) -> bool {
    match (c.old, c.new) {
        (Some((x, p)), Some((y, q))) => if x == y {
            p != q
        } else {
            sniffed_binary(c.old) || sniffed_binary(c.new) || lossy_text(x) != lossy_text(y)
        },
        (None, None) => false,
        _ => true,
    }
}

/// The bytes are the same on both sides.
pub open spec fn same_content(c: Changed) -> bool {
    match (c.old, c.new) {
        (Some((x, _)), Some((y, _))) => x == y,
        _ => false,
    }
}

/// The bytes differ, and those of a side are binary.
pub open spec fn binary_change(c: Changed) -> bool {
    !same_content(c) && (sniffed_binary(c.old) || sniffed_binary(c.new))
}

/// What happened to a path.
pub open spec fn what_happened(c: Changed) -> Seq<char> {
    if c.old is None {
        "added"@
    } else if c.new is None {
        "deleted"@
    } else if same_content(c) {
        "mode-changed"@
    } else {
        "modified"@
    }
}

/// Lines that have to be inserted and deleted: together as few as any edit
/// script needs, and one more inserted than deleted for each line that the new
/// side is longer.
pub open spec fn counted_lines(c: Changed) -> (int, int) {
    if same_content(c) || binary_change(c) {
        (0, 0)
    } else {
        let a = lines_of(text_on(c.old));
        let b = lines_of(text_on(c.new));
        let d = distance(a, b) as int;
        ((d + b.len() - a.len()) / 2, (d + a.len() - b.len()) / 2)
    }
}

/// A change in the JSON list.
pub open spec fn change_json(c: Changed) -> Seq<char> {
    "{\"path\":"@ + json_text(c.rel) + ",\"status\":"@ + json_text(what_happened(c))
        + ",\"lines_added\":"@ + numeral(counted_lines(c).0 as nat) + ",\"lines_removed\":"@
        + numeral(counted_lines(c).1 as nat) + ",\"binary\":"@ + (if binary_change(c) {
        "true"@
    } else {
        "false"@
    }) + "}"@
}

/// The name of a side.
pub open spec fn name_of(side: Side) -> Seq<char> {
    match side {
        Side::Turn(t) => "turn "@ + numeral(t as nat),
        Side::Working => "wt"@,
    }
}

/// How a side's file is named in the head of a diff.
pub open spec fn headed(side: Side, rel: Seq<char>, there: bool) -> Seq<char> {
    if there {
        name_of(side) + ":"@ + rel
    } else {
        "/dev/null"@
    }
}

/// A change in the printed diff: the modes where the exec bit alone changed, a
/// note where the content is binary, and otherwise the unified diff of the
/// texts with three lines of context. A file that came or went empty has only
/// the head of a diff.
pub open spec fn change_print(from: Side, to: Side, c: Changed) -> Seq<char> {
    let a = headed(from, c.rel, c.old is Some);
    let b = headed(to, c.rel, c.new is Some);
    if same_content(c) {
        "mode changed: "@ + c.rel + (if c.new matches Some((_, executable)) && executable {
            " (100644 -> 100755)\n"@
        } else {
            " (100755 -> 100644)\n"@
        })
    } else if binary_change(c) {
        "Binary files "@ + (name_of(from) + ":"@ + c.rel) + " and "@ + (name_of(to) + ":"@ + c.rel)
            + " differ\n"@
    } else if text_on(c.old) == text_on(c.new) {
        "--- "@ + a + "\n+++ "@ + b + "\n"@
    } else {
        unified_text(a, b, text_on(c.old), text_on(c.new), 3)
    }
}

/// The changes are exactly the paths in scope on which the sides differ, in
/// ascending order, each with what stands at it on both sides.
pub open spec fn all_changes(
    s: StoreView,
    work: Seq<LoadedView>,
    from: Side,
    to: Side,
    paths: Seq<Seq<char>>,
    list: Seq<Changed>,
) -> bool {
    &&& forall|i: int, j: int|
        0 <= i < j < list.len() ==> text_before((#[trigger] list[i]).rel, (#[trigger] list[j]).rel)
    &&& forall|i: int|
        0 <= i < list.len() ==> told_right(s, work, from, to, #[trigger] list[i]) && differ(list[i])
            && (paths.len() == 0 || at_or_below(paths, list[i].rel))
    &&& forall|c: Changed|
        #[trigger] told_right(s, work, from, to, c) && differ(c) && (paths.len() == 0
            || at_or_below(paths, c.rel)) ==> list.contains(c)
}

/// What is said to stand at a path on both sides does.
pub open spec fn told_right(
    s: StoreView,
    work: Seq<LoadedView>,
    from: Side,
    to: Side,
    c: Changed,
) -> bool {
    &&& match c.old {
        Some((bytes, x)) => stands_on(s, work, from, c.rel, bytes, x),
        None => !has_on(s, work, from, c.rel),
    }
    &&& match c.new {
        Some((bytes, x)) => stands_on(s, work, to, c.rel, bytes, x),
        None => !has_on(s, work, to, c.rel),
    }
}

proof fn lemma_side_file(files: Seq<SideFileView>, rel: Seq<char>)
    ensures
        side_file(files, rel) is Some <==> exists|k: int|
            0 <= k < files.len() && (#[trigger] files[k]).rel == rel,
        side_file(files, rel) matches Some(f) ==> exists|k: int|
            0 <= k < files.len() && #[trigger] files[k] == f && f.rel == rel,
    decreases files.len(),
{
    if files.len() > 0 {
        let head = files.drop_last();
        lemma_side_file(head, rel);
        if files.last().rel == rel {
            assert(files[files.len() - 1] == files.last());
        } else {
            if let Some(f) = side_file(head, rel) {
                let k = choose|k: int|
                    0 <= k < head.len() && #[trigger] head[k] == f && f.rel == rel;
                assert(files[k] == f);
            }
            if exists|k: int| 0 <= k < files.len() && (#[trigger] files[k]).rel == rel {
                let k = choose|k: int| 0 <= k < files.len() && (#[trigger] files[k]).rel == rel;
                assert(head[k].rel == rel);
            }
        }
    }
}

/// What a side's file and its bytes say is what stands on the side.
proof fn lemma_on_side(s: StoreView, work: Seq<LoadedView>, side: Side, rel: Seq<char>)
    requires
        side_listed(s, work, side),
    ensures
        side_files(s, work, side) is Ok,
        ({
            let files = side_files(s, work, side)->Ok_0;
            &&& side_file(files, rel) is Some <==> has_on(s, work, side, rel)
            &&& side_paths(files).contains(rel) <==> has_on(s, work, side, rel)
            &&& side_file(files, rel) matches Some(f) ==> {
                &&& side_bytes(s, f) matches Ok(bytes) ==> stands_on(
                    s,
                    work,
                    side,
                    rel,
                    bytes,
                    f.executable,
                )
                &&& forall|bytes: Seq<u8>, x: bool| #[trigger]
                    stands_on(s, work, side, rel, bytes, x) ==> side_bytes(s, f) == Ok::<
                        Seq<u8>,
                        Seq<char>,
                    >(bytes) && f.executable == x
            }
            &&& side_file(files, rel) is None ==> forall|bytes: Seq<u8>, x: bool|
                !#[trigger] stands_on(s, work, side, rel, bytes, x)
        }),
{
    let files = side_files(s, work, side)->Ok_0;
    lemma_side_file(files, rel);
    match side {
        Side::Turn(t) => {
            let list = snapshot_files(s.objects, s.snapshot(t)->Ok_0.tree)->Ok_0;
            assert(files.len() == list.len());
            assert forall|k: int| 0 <= k < files.len() implies (#[trigger] files[k]).rel
                == list[k].rel && files[k].executable == list[k].executable && files[k].source
                == SourceView::Blob(list[k].id) by {}
            if has_on(s, work, side, rel) {
                let k = choose|k: int| 0 <= k < list.len() && (#[trigger] list[k]).rel == rel;
                assert(files[k].rel == rel);
                assert(side_paths(files)[k] == rel);
            }
            if side_paths(files).contains(rel) {
                let k = choose|k: int|
                    0 <= k < side_paths(files).len() && side_paths(files)[k] == rel;
                assert(files[k].rel == rel);
                assert(list[k].rel == rel);
            }
            if let Some(f) = side_file(files, rel) {
                let k = choose|k: int|
                    0 <= k < files.len() && #[trigger] files[k] == f && f.rel == rel;
                assert(list[k].rel == rel);
                assert forall|bytes: Seq<u8>, x: bool| #[trigger]
                    stands_on(s, work, side, rel, bytes, x) implies side_bytes(s, f) == Ok::<
                    Seq<u8>,
                    Seq<char>,
                >(bytes) && f.executable == x by {
                    let m = choose|m: int|
                        0 <= m < list.len() && (#[trigger] list[m]).rel == rel
                            && list[m].executable == x && fetched(s.objects, list[m].id) is Ok
                            && fetched(s.objects, list[m].id)->Ok_0.1 == bytes;
                    assert(list[m].rel == list[k].rel);
                }
            } else {
                assert forall|bytes: Seq<u8>, x: bool| !#[trigger] stands_on(
                    s,
                    work,
                    side,
                    rel,
                    bytes,
                    x,
                ) by {
                    if stands_on(s, work, side, rel, bytes, x) {
                        let m = choose|m: int|
                            0 <= m < list.len() && (#[trigger] list[m]).rel == rel
                                && list[m].executable == x && fetched(s.objects, list[m].id) is Ok
                                && fetched(s.objects, list[m].id)->Ok_0.1 == bytes;
                        assert(files[m].rel == rel);
                    }
                }
            }
        },
        Side::Working => {
            assert(files.len() == work.len());
            assert forall|k: int| 0 <= k < files.len() implies (#[trigger] files[k]).rel
                == work[k].rel && files[k].executable == work[k].executable && files[k].source
                == SourceView::Disk(work[k]) by {}
            if has_on(s, work, side, rel) {
                let k = choose|k: int| 0 <= k < work.len() && (#[trigger] work[k]).rel == rel;
                assert(files[k].rel == rel);
                assert(side_paths(files)[k] == rel);
            }
            if side_paths(files).contains(rel) {
                let k = choose|k: int|
                    0 <= k < side_paths(files).len() && side_paths(files)[k] == rel;
                assert(files[k].rel == rel);
                assert(work[k].rel == rel);
            }
            if let Some(f) = side_file(files, rel) {
                let k = choose|k: int|
                    0 <= k < files.len() && #[trigger] files[k] == f && f.rel == rel;
                assert(work[k].rel == rel);
                assert forall|bytes: Seq<u8>, x: bool| #[trigger]
                    stands_on(s, work, side, rel, bytes, x) implies side_bytes(s, f) == Ok::<
                    Seq<u8>,
                    Seq<char>,
                >(bytes) && f.executable == x by {
                    let m = choose|m: int|
                        0 <= m < work.len() && (#[trigger] work[m]).rel == rel
                            && work[m].executable == x && work[m].data == Ok::<
                            Seq<u8>,
                            Seq<char>,
                        >(bytes);
                    assert(work[m].rel == work[k].rel);
                }
            } else {
                assert forall|bytes: Seq<u8>, x: bool| !#[trigger] stands_on(
                    s,
                    work,
                    side,
                    rel,
                    bytes,
                    x,
                ) by {
                    if stands_on(s, work, side, rel, bytes, x) {
                        let m = choose|m: int|
                            0 <= m < work.len() && (#[trigger] work[m]).rel == rel
                                && work[m].executable == x && work[m].data == Ok::<
                                Seq<u8>,
                                Seq<char>,
                            >(bytes);
                        assert(files[m].rel == rel);
                    }
                }
            }
        },
    }
}

proof fn lemma_without_repeats(list: Seq<Seq<char>>)
    requires
        in_order(list, |p: Seq<char>| p),
    ensures
        ascending_paths(without_repeats(list)),
        forall|p: Seq<char>| #[trigger] without_repeats(list).contains(p) <==> list.contains(p),
        list.len() > 0 ==> without_repeats(list).len() > 0 && without_repeats(list).last()
            == list.last(),
    decreases list.len(),
{
    if list.len() > 0 {
        let head = list.drop_last();
        let key = |p: Seq<char>| p;
        assert forall|i: int, j: int| 0 <= i < j < head.len() implies !text_before(
            key(#[trigger] head[j]),
            key(#[trigger] head[i]),
        ) by {
            assert(!text_before(key(list[j]), key(list[i])));
        }
        lemma_without_repeats(head);
        let before = without_repeats(head);
        let out = without_repeats(list);
        let x = list.last();
        assert forall|p: Seq<char>| #[trigger] out.contains(p) <==> list.contains(p) by {
            assert(list =~= head.push(x));
            crate::reporting::lemma_push_contains(head, x, p);
            crate::reporting::lemma_push_contains(before, x, p);
            assert(before.contains(p) <==> head.contains(p));
        }
        if out != before {
            assert forall|i: int| 0 <= i < before.len() implies text_before(
                #[trigger] before[i],
                x,
            ) by {
                assert(before.contains(before[i]));
                assert(head.contains(before[i]));
                let k = choose|k: int| 0 <= k < head.len() && head[k] == before[i];
                assert(!text_before(key(list[list.len() - 1]), key(list[k])));
                lemma_text_order(before[i], x, before[before.len() - 1]);
                if before[i] == x {
                    let last = before.len() - 1;
                    assert(before[last] == head.last());
                    if i < last {
                        assert(text_before(before[i], before[last]));
                        assert(!text_before(
                            key(list[list.len() - 1]),
                            key(list[head.len() - 1]),
                        ));
                    }
                }
            }
            crate::reporting::lemma_push_ascending(before, x);
        }
    }
}

proof fn lemma_all_paths(a: Seq<SideFileView>, b: Seq<SideFileView>)
    ensures
        ascending_paths(all_paths(a, b)),
        forall|p: Seq<char>| #[trigger]
            all_paths(a, b).contains(p) <==> side_paths(a).contains(p) || side_paths(b).contains(
                p,
            ),
{
    let raw = side_paths(a) + side_paths(b);
    let key = |p: Seq<char>| p;
    law_sorted_by(raw, key);
    lemma_without_repeats(sorted_by(raw, key));
    assert forall|p: Seq<char>| #[trigger] all_paths(a, b).contains(p) <==> side_paths(a).contains(
        p,
    ) || side_paths(b).contains(p) by {
        assert(sorted_by(raw, key).contains(p) <==> raw.contains(p));
        if raw.contains(p) {
            let k = choose|k: int| 0 <= k < raw.len() && raw[k] == p;
            if k < a.len() {
                assert(side_paths(a)[k] == p);
            } else {
                assert(side_paths(b)[k - a.len()] == p);
            }
        }
        if side_paths(a).contains(p) {
            let k = choose|k: int| 0 <= k < side_paths(a).len() && side_paths(a)[k] == p;
            assert(raw[k] == p);
        }
        if side_paths(b).contains(p) {
            let k = choose|k: int| 0 <= k < side_paths(b).len() && side_paths(b)[k] == p;
            assert(raw[a.len() + k] == p);
        }
    }
}

/// The change of a path, where it can be read.
spec fn change_of(
    s: StoreView,
    rel: Seq<char>,
    a: Option<SideFileView>,
    b: Option<SideFileView>,
) -> Changed {
    Changed {
        rel,
        old: match a {
            Some(f) => Some((side_bytes(s, f)->Ok_0, f.executable)),
            None => None,
        },
        new: match b {
            Some(f) => Some((side_bytes(s, f)->Ok_0, f.executable)),
            None => None,
        },
    }
}

proof fn lemma_binary(side: Option<(Seq<u8>, bool)>)
    ensures
        some_binary(
            match side {
                Some((bytes, _)) => Some(bytes),
                None => None,
            },
        ) == sniffed_binary(side),
{
}

/// What a diff shows of a path is what its change says.
proof fn lemma_entry(
    s: StoreView,
    rel: Seq<char>,
    from: Side,
    to: Side,
    a: Option<SideFileView>,
    b: Option<SideFileView>,
)
    requires
        path_entry(s, rel, side_text(from), side_text(to), a, b) is Ok,
        countable_change(change_of(s, rel, a, b)),
    ensures
        ({
            let c = change_of(s, rel, a, b);
            path_entry(s, rel, side_text(from), side_text(to), a, b)->Ok_0 == if differ(c) {
                Some((change_print(from, to, c), change_json(c)))
            } else {
                None
            }
        }),
{
    let c = change_of(s, rel, a, b);
    lemma_binary(c.old);
    lemma_binary(c.new);
    assert(name_of(from) == side_text(from));
    assert(name_of(to) == side_text(to));
    let x = option_side_bytes(s, a)->Ok_0;
    let y = option_side_bytes(s, b)->Ok_0;
    assert(path_entry(s, rel, side_text(from), side_text(to), a, b)->Ok_0 == bytes_entry(
        rel,
        side_text(from),
        side_text(to),
        a,
        b,
        x,
        y,
    ));
    if x == y {
        if differ(c) {
            lemma_mode_print(rel, a->0.executable, c, from, to);
        }
    } else if some_binary(x) || some_binary(y) {
        assert(differ(c));
        lemma_binary_print(c, from, to);
    } else {
        lemma_text_print(c, from, to);
    }
}

proof fn lemma_mode_print(rel: Seq<char>, was: bool, c: Changed, from: Side, to: Side)
    requires
        same_content(c),
        c.rel == rel,
        c.old matches Some((_, x)) && x == was,
        c.new matches Some((_, x)) && x != was,
    ensures
        crate::compare::mode_entry(rel, was) == (change_print(from, to, c), change_json(c)),
{
    reveal_strlit(" (100644 -> 100755)\n");
    reveal_strlit(" (100755 -> 100644)\n");
    reveal_strlit(" (");
    reveal_strlit(" -> ");
    reveal_strlit(")\n");
    reveal_strlit("100644");
    reveal_strlit("100755");
    assert(" (100644 -> 100755)\n"@ =~= " ("@ + "100644"@ + " -> "@ + "100755"@ + ")\n"@);
    assert(" (100755 -> 100644)\n"@ =~= " ("@ + "100755"@ + " -> "@ + "100644"@ + ")\n"@);
    assert(crate::compare::mode_entry(rel, was).0 =~= change_print(from, to, c));
}

proof fn lemma_binary_print(c: Changed, from: Side, to: Side)
    requires
        binary_change(c),
    ensures
        "Binary files "@ + side_text(from) + ":"@ + c.rel + " and "@ + side_text(to) + ":"@ + c.rel
            + " differ\n"@ == change_print(from, to, c),
        c.old is Some || c.new is Some ==> summary_text(
            c.rel,
            change_status(c.old is Some, c.new is Some),
            0,
            0,
            true,
        ) == change_json(c),
{
    assert("Binary files "@ + side_text(from) + ":"@ + c.rel + " and "@ + side_text(to) + ":"@
        + c.rel + " differ\n"@ =~= change_print(from, to, c));
}

/// The bytes of a side.
spec fn bytes_on(side: Option<(Seq<u8>, bool)>) -> Option<Seq<u8>> {
    match side {
        Some((bytes, _)) => Some(bytes),
        None => None,
    }
}

proof fn lemma_counted(c: Changed)
    requires
        countable_change(c),
        !same_content(c),
        !binary_change(c),
    ensures
        changed_lines(text_on(c.old), text_on(c.new)).0 == counted_lines(c).0,
        changed_lines(text_on(c.old), text_on(c.new)).1 == counted_lines(c).1,
{
    let la = lines_of(text_on(c.old));
    let lb = lines_of(text_on(c.new));
    law_line_script_is_shortest(la, lb);
    lemma_balance(line_script(la, lb));
}

proof fn lemma_text_print(c: Changed, from: Side, to: Side)
    requires
        countable_change(c),
        bytes_on(c.old) != bytes_on(c.new),
        !sniffed_binary(c.old),
        !sniffed_binary(c.new),
    ensures
        text_entry(
            c.rel,
            side_text(from),
            side_text(to),
            option_lossy(bytes_on(c.old)),
            option_lossy(bytes_on(c.new)),
        ) == if differ(c) {
            Some((change_print(from, to, c), change_json(c)))
        } else {
            None
        },
{
    reveal_strlit("");
    assert(""@ =~= Seq::<char>::empty());
    lemma_counted(c);
    assert(crate::compare::or_empty(option_lossy(bytes_on(c.old))) == text_on(c.old));
    assert(crate::compare::or_empty(option_lossy(bytes_on(c.new))) == text_on(c.new));
}

/// The texts of both sides have fewer lines than a `usize` can count.
pub open spec fn countable_change(c: Changed) -> bool {
    lines_of(text_on(c.old)).len() <= usize::MAX && lines_of(text_on(c.new)).len() <= usize::MAX
}

/// The changes among the first `n` paths.
spec fn changes_upto(
    s: StoreView,
    rels: Seq<Seq<char>>,
    n: nat,
    paths: Seq<Seq<char>>,
    a: Seq<SideFileView>,
    b: Seq<SideFileView>,
) -> Seq<Changed>
    decreases n,
{
    if n == 0 || n > rels.len() {
        Seq::empty()
    } else {
        let rel = rels[n - 1];
        let before = changes_upto(s, rels, (n - 1) as nat, paths, a, b);
        let c = change_of(s, rel, side_file(a, rel), side_file(b, rel));
        if (paths.len() == 0 || at_or_below(paths, rel)) && differ(c) {
            before.push(c)
        } else {
            before
        }
    }
}

proof fn lemma_printed_changes(
    s: StoreView,
    rels: Seq<Seq<char>>,
    n: nat,
    paths: Seq<Seq<char>>,
    from: Side,
    to: Side,
    a: Seq<SideFileView>,
    b: Seq<SideFileView>,
)
    requires
        n <= rels.len(),
        diff_upto(s, rels, n, paths, side_text(from), side_text(to), a, b) is Ok,
        forall|k: int|
            0 <= k < n && in_scope(paths, rels[k]) ==> countable_change(
                change_of(s, #[trigger] rels[k], side_file(a, rels[k]), side_file(b, rels[k])),
            ),
    ensures
        ({
            let d = diff_upto(s, rels, n, paths, side_text(from), side_text(to), a, b)->Ok_0;
            let list = changes_upto(s, rels, n, paths, a, b);
            &&& d.body == in_a_row(list.map_values(|c: Changed| change_print(from, to, c)))
            &&& d.summaries == list.map_values(|c: Changed| change_json(c))
        }),
    decreases n,
{
    let print = |c: Changed| change_print(from, to, c);
    let json = |c: Changed| change_json(c);
    let list = changes_upto(s, rels, n, paths, a, b);
    let d = diff_upto(s, rels, n, paths, side_text(from), side_text(to), a, b)->Ok_0;
    if n == 0 {
        assert(list.map_values(print) =~= Seq::<Seq<char>>::empty());
        assert(d.summaries =~= list.map_values(json));
    } else {
        lemma_printed_changes(s, rels, (n - 1) as nat, paths, from, to, a, b);
        let rel = rels[n - 1];
        let before = changes_upto(s, rels, (n - 1) as nat, paths, a, b);
        let x = side_file(a, rel);
        let y = side_file(b, rel);
        let c = change_of(s, rel, x, y);
        lemma_in_scope(paths, rel);
        if in_scope(paths, rel) {
            assert(countable_change(change_of(s, rels[n - 1], x, y)));
            lemma_entry(s, rel, from, to, x, y);
            if differ(c) {
                assert(list.map_values(print).drop_last() =~= before.map_values(print));
                assert(list.map_values(print).last() == change_print(from, to, c));
                assert(list.map_values(json) =~= before.map_values(json).push(change_json(c)));
            }
        }
    }
}

proof fn lemma_changes(
    s: StoreView,
    work: Seq<LoadedView>,
    from: Side,
    to: Side,
    rels: Seq<Seq<char>>,
    n: nat,
    paths: Seq<Seq<char>>,
    a: Seq<SideFileView>,
    b: Seq<SideFileView>,
)
    requires
        n <= rels.len(),
        ascending_paths(rels),
        side_listed(s, work, from),
        side_listed(s, work, to),
        side_files(s, work, from) == Ok::<Seq<SideFileView>, Seq<char>>(a),
        side_files(s, work, to) == Ok::<Seq<SideFileView>, Seq<char>>(b),
        diff_upto(s, rels, n, paths, side_text(from), side_text(to), a, b) is Ok,
    ensures
        ({
            let list = changes_upto(s, rels, n, paths, a, b);
            &&& forall|i: int, j: int|
                0 <= i < j < list.len() ==> text_before(
                    (#[trigger] list[i]).rel,
                    (#[trigger] list[j]).rel,
                )
            &&& forall|i: int|
                0 <= i < list.len() ==> told_right(s, work, from, to, #[trigger] list[i])
                    && differ(list[i]) && (paths.len() == 0 || at_or_below(paths, list[i].rel))
                    && exists|k: int| 0 <= k < n && #[trigger] rels[k] == list[i].rel
            &&& forall|c: Changed, k: int|
                #![trigger told_right(s, work, from, to, c), rels[k]]
                0 <= k < n && rels[k] == c.rel && told_right(s, work, from, to, c) && differ(c) && (
                paths.len() == 0 || at_or_below(paths, c.rel)) ==> list.contains(c)
        }),
    decreases n,
{
    if n > 0 {
        let m = (n - 1) as nat;
        lemma_changes(s, work, from, to, rels, m, paths, a, b);
        let before = changes_upto(s, rels, m, paths, a, b);
        let list = changes_upto(s, rels, n, paths, a, b);
        let rel = rels[n - 1];
        let x = side_file(a, rel);
        let y = side_file(b, rel);
        let one = change_of(s, rel, x, y);
        let shown = (paths.len() == 0 || at_or_below(paths, rel)) && differ(one);
        lemma_on_side(s, work, from, rel);
        lemma_on_side(s, work, to, rel);
        lemma_in_scope(paths, rel);
        if shown {
            assert(path_entry(s, rel, side_text(from), side_text(to), x, y) is Ok);
            assert(told_right(s, work, from, to, one));
        }
        assert forall|i: int| 0 <= i < list.len() implies told_right(
            s,
            work,
            from,
            to,
            #[trigger] list[i],
        ) && differ(list[i]) && (paths.len() == 0 || at_or_below(paths, list[i].rel)) && exists|
            k: int,
        | 0 <= k < n && #[trigger] rels[k] == list[i].rel by {
            if i < before.len() {
                assert(list[i] == before[i]);
                let k = choose|k: int| 0 <= k < m && #[trigger] rels[k] == before[i].rel;
                assert(rels[k] == list[i].rel);
            } else {
                assert(list[i] == one);
                assert(rels[n - 1] == list[i].rel);
            }
        }
        assert forall|i: int, j: int| 0 <= i < j < list.len() implies text_before(
            (#[trigger] list[i]).rel,
            (#[trigger] list[j]).rel,
        ) by {
            if j < before.len() {
                assert(list[i] == before[i] && list[j] == before[j]);
            } else {
                assert(list[i] == before[i]);
                let k = choose|k: int| 0 <= k < m && #[trigger] rels[k] == before[i].rel;
                assert(text_before(rels[k], rels[n - 1]));
            }
        }
        assert forall|c: Changed, k: int|
            #![trigger told_right(s, work, from, to, c), rels[k]]
            0 <= k < n && rels[k] == c.rel && told_right(s, work, from, to, c) && differ(c) && (
            paths.len() == 0 || at_or_below(paths, c.rel)) implies list.contains(c) by {
            if k < n - 1 {
                assert(before.contains(c));
                let t = choose|t: int| 0 <= t < before.len() && before[t] == c;
                assert(list[t] == c);
            } else {
                lemma_told_once(s, work, from, to, c, a, b);
                assert(list[list.len() - 1] == c);
            }
        }
    }
}

/// Only one thing can be said rightly of a path.
proof fn lemma_told_once(
    s: StoreView,
    work: Seq<LoadedView>,
    from: Side,
    to: Side,
    c: Changed,
    a: Seq<SideFileView>,
    b: Seq<SideFileView>,
)
    requires
        side_listed(s, work, from),
        side_listed(s, work, to),
        side_files(s, work, from) == Ok::<Seq<SideFileView>, Seq<char>>(a),
        side_files(s, work, to) == Ok::<Seq<SideFileView>, Seq<char>>(b),
        told_right(s, work, from, to, c),
    ensures
        c == change_of(s, c.rel, side_file(a, c.rel), side_file(b, c.rel)),
{
    lemma_on_side(s, work, from, c.rel);
    lemma_on_side(s, work, to, c.rel);
    if let Some((bytes, x)) = c.old {
        assert(stands_on(s, work, from, c.rel, bytes, x));
    }
    if let Some((bytes, x)) = c.new {
        assert(stands_on(s, work, to, c.rel, bytes, x));
    }
}

/// The files of a side fit into memory as text.
pub open spec fn side_countable(s: StoreView, work: Seq<LoadedView>, side: Side) -> bool {
    forall|rel: Seq<char>, bytes: Seq<u8>, x: bool| #[trigger]
        stands_on(s, work, side, rel, bytes, x) ==> lines_of(lossy_text(bytes)).len() <= usize::MAX
}

/// A printed change has text.
proof fn lemma_print_has_text(from: Side, to: Side, c: Changed)
    ensures
        change_print(from, to, c).len() > 0,
{
    reveal_strlit("mode changed: ");
    reveal_strlit("Binary files ");
    reveal_strlit("--- ");
}

/// `diff` reports exactly the paths on which its two sides differ, in ascending
/// order and limited to the given paths: a path that only the second side has is
/// added, one that only the first side has is deleted, and the others are
/// modified, or mode-changed where the bytes are the same. The numbers of lines
/// are those of a shortest edit script. Printed, each change is the unified diff
/// from the first side to the second; where nothing differs a note says so.
pub proof fn law_diff_reports_every_difference(
    s: StoreView,
    work: Seq<LoadedView>,
    from: Side,
    to: Side,
    paths: Seq<Seq<char>>,
)
    requires
        side_listed(s, work, from),
        side_listed(s, work, to),
        side_countable(s, work, from),
        side_countable(s, work, to),
    ensures
        diff_output(s, work, from, to, paths, true) matches Ok(reply) ==> exists|
            list: Seq<Changed>,
        | #[trigger]
            all_changes(s, work, from, to, paths, list) && reply == DiffReplyView::Text(
                "{\"tool\":\"snapref\",\"version\":\"0.1.0\""@ + ",\"from\":"@ + json_text(
                    name_of(from),
                ) + ",\"to\":"@ + json_text(name_of(to)) + ",\"files\":["@ + joined_by(
                    list.map_values(|c: Changed| change_json(c)),
                    ',',
                ) + "]}\n"@,
            ),
        diff_output(s, work, from, to, paths, false) matches Ok(reply) ==> exists|
            list: Seq<Changed>,
        | #[trigger]
            all_changes(s, work, from, to, paths, list) && reply == if list.len() == 0 {
                DiffReplyView::Note(
                    "no differences between "@ + name_of(from) + " and "@ + name_of(to) + "\n"@,
                )
            } else {
                DiffReplyView::Text(
                    in_a_row(list.map_values(|c: Changed| change_print(from, to, c))),
                )
            },
{
    lemma_on_side(s, work, from, Seq::empty());
    lemma_on_side(s, work, to, Seq::empty());
    let a = side_files(s, work, from)->Ok_0;
    let b = side_files(s, work, to)->Ok_0;
    let rels = all_paths(a, b);
    let n = rels.len();
    if diff_upto(s, rels, n, paths, side_text(from), side_text(to), a, b) is Ok {
        lemma_diff_list(s, work, from, to, paths, a, b);
        lemma_envelope();
        let list = changes_upto(s, rels, n, paths, a, b);
        let d = diff_upto(s, rels, n, paths, side_text(from), side_text(to), a, b)->Ok_0;
        assert(all_changes(s, work, from, to, paths, list));
        let prints = list.map_values(|c: Changed| change_print(from, to, c));
        assert(d.body.len() == 0 <==> list.len() == 0) by {
            if list.len() > 0 {
                lemma_print_has_text(from, to, list.last());
                assert(prints.last() == change_print(from, to, list.last()));
            } else {
                assert(prints =~= Seq::<Seq<char>>::empty());
            }
        }
    }
}

proof fn lemma_diff_list(
    s: StoreView,
    work: Seq<LoadedView>,
    from: Side,
    to: Side,
    paths: Seq<Seq<char>>,
    a: Seq<SideFileView>,
    b: Seq<SideFileView>,
)
    requires
        side_listed(s, work, from),
        side_listed(s, work, to),
        side_countable(s, work, from),
        side_countable(s, work, to),
        side_files(s, work, from) == Ok::<Seq<SideFileView>, Seq<char>>(a),
        side_files(s, work, to) == Ok::<Seq<SideFileView>, Seq<char>>(b),
        diff_upto(
            s,
            all_paths(a, b),
            all_paths(a, b).len(),
            paths,
            side_text(from),
            side_text(to),
            a,
            b,
        ) is Ok,
    ensures
        ({
            let rels = all_paths(a, b);
            let list = changes_upto(s, rels, rels.len(), paths, a, b);
            let d = diff_upto(
                s,
                rels,
                rels.len(),
                paths,
                side_text(from),
                side_text(to),
                a,
                b,
            )->Ok_0;
            &&& all_changes(s, work, from, to, paths, list)
            &&& d.body == in_a_row(list.map_values(|c: Changed| change_print(from, to, c)))
            &&& d.summaries == list.map_values(|c: Changed| change_json(c))
        }),
{
    let rels = all_paths(a, b);
    let n = rels.len();
    lemma_all_paths(a, b);
    lemma_changes(s, work, from, to, rels, n, paths, a, b);
    let list = changes_upto(s, rels, n, paths, a, b);
    assert forall|c: Changed|
        #[trigger] told_right(s, work, from, to, c) && differ(c) && (paths.len() == 0
            || at_or_below(paths, c.rel)) implies list.contains(c) by {
        lemma_told_once(s, work, from, to, c, a, b);
        lemma_on_side(s, work, from, c.rel);
        lemma_on_side(s, work, to, c.rel);
        assert(rels.contains(c.rel));
        let k = choose|k: int| 0 <= k < rels.len() && rels[k] == c.rel;
        assert(rels[k] == c.rel);
    }
    assert forall|k: int| 0 <= k < n && in_scope(paths, rels[k]) implies countable_change(
        change_of(s, #[trigger] rels[k], side_file(a, rels[k]), side_file(b, rels[k])),
    ) by {
        let rel = rels[k];
        lemma_on_side(s, work, from, rel);
        lemma_on_side(s, work, to, rel);
        lemma_readable(s, rels, n, paths, side_text(from), side_text(to), a, b, k);
        reveal_strlit("");
    }
    lemma_printed_changes(s, rels, n, paths, from, to, a, b);
}

/// Where a diff is made, the files of every path in scope can be read.
proof fn lemma_readable(
    s: StoreView,
    rels: Seq<Seq<char>>,
    n: nat,
    paths: Seq<Seq<char>>,
    from: Seq<char>,
    to: Seq<char>,
    a: Seq<SideFileView>,
    b: Seq<SideFileView>,
    k: int,
)
    requires
        0 <= k < n <= rels.len(),
        diff_upto(s, rels, n, paths, from, to, a, b) is Ok,
        in_scope(paths, rels[k]),
    ensures
        path_entry(s, rels[k], from, to, side_file(a, rels[k]), side_file(b, rels[k])) is Ok,
    decreases n,
{
    if k < n - 1 {
        lemma_readable(s, rels, (n - 1) as nat, paths, from, to, a, b, k);
    }
}

} // verus!
