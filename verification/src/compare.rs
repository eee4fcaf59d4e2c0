//! The `diff` command: two sides, each a turn or the working tree, compared
//! path by path.

use vstd::hash_map::StringHashMap;
use vstd::prelude::*;

use crate::cli::{
    json_text, named_side, op_err, op_fail, parse_side, side_name, side_text, text3, Fail, FailView,
    Side,
};
use crate::commands::{
    bool_text, envelope, open_envelope, push_bool, push_joined, push_json, push_number,
};
use crate::decimal::numeral;
use crate::diff::{
    binary, diff_header, is_binary, render_diff_header, unified, unified_text,
};
use crate::inspect::option_bytes;
use crate::object::{fetched, read, MODE_EXEC, MODE_FILE};
use crate::order::{sort, sorted_by, Keyed};
use crate::restore::{is_selected, same_bytes, selected_by};
use crate::snapshot::{
    changed_lines, file_views, files_of, line_changes, loaded_views, snapshot_files, unreadable,
    FileEntryView, LoadedFile, LoadedView,
};
use crate::store::{Store, StoreView};
use crate::text::{joined_by, lossy_text, owned_texts, same, utf8_lossy};
use crate::tree::file_mode;

verus! {

/// Where the bytes of a file come from: a blob, or the working tree.
pub enum SourceView {
    Blob(Seq<char>),
    Disk(LoadedView),
}

/// A file of one side.
pub struct SideFileView {
    pub rel: Seq<char>,
    pub executable: bool,
    pub source: SourceView,
}

/// Where the bytes of a file come from: a blob, or a place in the list of the
/// working tree's files.
enum Source {
    Blob(String),
    Disk(usize),
}

/// A file of one side.
struct SideFile {
    rel: String,
    executable: bool,
    source: Source,
}

impl SideFile {
    spec fn file(self, work: Seq<LoadedView>) -> SideFileView {
        SideFileView {
            rel: self.rel@,
            executable: self.executable,
            source: match self.source {
                Source::Blob(id) => SourceView::Blob(id@),
                Source::Disk(i) => SourceView::Disk(work[i as int]),
            },
        }
    }

    spec fn inside(self, work: Seq<LoadedView>) -> bool {
        self.source matches Source::Disk(i) ==> i < work.len()
    }
}

/// The files of a side.
pub open spec fn side_files(s: StoreView, work: Seq<LoadedView>, side: Side) -> Result<
    Seq<SideFileView>,
    Seq<char>,
> {
    match side {
        Side::Turn(turn) => match s.snapshot(turn) {
            Err(e) => Err(e),
            Ok(snap) => match snapshot_files(s.objects, snap.tree) {
                Err(e) => Err(e),
                Ok(files) => Ok(
                    files.map_values(
                        |f: FileEntryView|
                            SideFileView {
                                rel: f.rel,
                                executable: f.executable,
                                source: SourceView::Blob(f.id),
                            },
                    ),
                ),
            },
        },
        Side::Working => Ok(
            work.map_values(
                |f: LoadedView|
                    SideFileView {
                        rel: f.rel,
                        executable: f.executable,
                        source: SourceView::Disk(f),
                    },
            ),
        ),
    }
}

/// The file of a side at a path: the last one in its list.
pub open spec fn side_file(files: Seq<SideFileView>, rel: Seq<char>) -> Option<SideFileView>
    decreases files.len(),
{
    if files.len() == 0 {
        None
    } else if files.last().rel == rel {
        Some(files.last())
    } else {
        side_file(files.drop_last(), rel)
    }
}

/// The paths of a side's files.
pub open spec fn side_paths(files: Seq<SideFileView>) -> Seq<Seq<char>> {
    files.map_values(|f: SideFileView| f.rel)
}

/// The list without items that repeat the one before.
pub open spec fn without_repeats(list: Seq<Seq<char>>) -> Seq<Seq<char>>
    decreases list.len(),
{
    if list.len() == 0 {
        Seq::empty()
    } else {
        let before = without_repeats(list.drop_last());
        if before.len() > 0 && before.last() == list.last() {
            before
        } else {
            before.push(list.last())
        }
    }
}

/// All paths of both sides, in order, each once.
pub open spec fn all_paths(a: Seq<SideFileView>, b: Seq<SideFileView>) -> Seq<Seq<char>> {
    without_repeats(sorted_by(side_paths(a) + side_paths(b), |p: Seq<char>| p))
}

/// The bytes of a file of a side.
pub open spec fn side_bytes(s: StoreView, f: SideFileView) -> Result<Seq<u8>, Seq<char>> {
    match f.source {
        SourceView::Blob(id) => match fetched(s.objects, id) {
            Ok((_, bytes)) => Ok(bytes),
            Err(e) => Err(e),
        },
        SourceView::Disk(l) => match l.data {
            Ok(bytes) => Ok(bytes),
            Err(why) => Err(unreadable(l, why)),
        },
    }
}

/// The bytes at a path of a side, if it has a file there.
pub open spec fn option_side_bytes(s: StoreView, f: Option<SideFileView>) -> Result<
    Option<Seq<u8>>,
    Seq<char>,
> {
    match f {
        None => Ok(None),
        Some(file) => match side_bytes(s, file) {
            Ok(bytes) => Ok(Some(bytes)),
            Err(e) => Err(e),
        },
    }
}

/// A changed file as an entry of a JSON list.
pub open spec fn summary_text(
    rel: Seq<char>,
    status: Seq<char>,
    add: nat,
    rem: nat,
    is_binary: bool,
) -> Seq<char> {
    "{\"path\":"@ + json_text(rel) + ",\"status\":"@ + json_text(status) + ",\"lines_added\":"@
        + numeral(add) + ",\"lines_removed\":"@ + numeral(rem) + ",\"binary\":"@ + bool_text(
        is_binary,
    ) + "}"@
}

/// A changed file as an entry of a JSON list.
pub fn diff_summary(rel: &str, status: &str, add: u64, rem: u64, is_binary: bool) -> (r: String)
    ensures
        r@ == summary_text(rel@, status@, add as nat, rem as nat, is_binary),
{
    let mut out = "{\"path\":".to_string();
    push_json(&mut out, rel);
    out.append(",\"status\":");
    push_json(&mut out, status);
    out.append(",\"lines_added\":");
    push_number(&mut out, add);
    out.append(",\"lines_removed\":");
    push_number(&mut out, rem);
    out.append(",\"binary\":");
    push_bool(&mut out, is_binary);
    out.append("}");
    out
}

/// How a path changed between its two sides.
pub open spec fn change_status(has_a: bool, has_b: bool) -> Seq<char> {
    if !has_a && has_b {
        "added"@
    } else if has_a && !has_b {
        "deleted"@
    } else {
        "modified"@
    }
}

/// The name of a file in the header of a diff.
pub open spec fn header_name(side: Seq<char>, rel: Seq<char>, has: bool) -> Seq<char> {
    if has {
        side + ":"@ + rel
    } else {
        "/dev/null"@
    }
}

/// The text, or nothing.
pub open spec fn or_empty(t: Option<Seq<char>>) -> Seq<char> {
    match t {
        Some(s) => s,
        None => ""@,
    }
}

/// What a diff shows of a path whose two sides are text: the hunks and the
/// summary, or nothing where both sides have the file and the texts are the
/// same. A file that was added or deleted empty has a header and no hunks.
pub open spec fn text_entry(
    rel: Seq<char>,
    from: Seq<char>,
    to: Seq<char>,
    a: Option<Seq<char>>,
    b: Option<Seq<char>>,
) -> Option<(Seq<char>, Seq<char>)> {
    let (x, y) = (or_empty(a), or_empty(b));
    let (a_name, b_name) = (
        header_name(from, rel, a is Some),
        header_name(to, rel, b is Some),
    );
    if x == y && a is Some == b is Some {
        None
    } else {
        let (add, rem) = changed_lines(x, y);
        Some(
            (
                if x == y {
                    diff_header(a_name, b_name)
                } else {
                    unified_text(a_name, b_name, x, y, 3)
                },
                summary_text(rel, change_status(a is Some, b is Some), add, rem, false),
            ),
        )
    }
}

/// The lossy text of bytes, if there are any.
pub open spec fn option_lossy(b: Option<Seq<u8>>) -> Option<Seq<char>> {
    match b {
        Some(bytes) => Some(lossy_text(bytes)),
        None => None,
    }
}

/// What a diff shows of a path whose exec bit alone changed.
pub open spec fn mode_entry(rel: Seq<char>, was: bool) -> (Seq<char>, Seq<char>) {
    (
        "mode changed: "@ + rel + " ("@ + file_mode(was) + " -> "@ + file_mode(!was) + ")\n"@,
        summary_text(rel, "mode-changed"@, 0, 0, false),
    )
}

/// Some bytes, and binary ones.
pub open spec fn some_binary(b: Option<Seq<u8>>) -> bool {
    b matches Some(bytes) && binary(bytes)
}

/// What a diff shows of a path, given the files and the bytes of both sides.
pub open spec fn bytes_entry(
    rel: Seq<char>,
    from: Seq<char>,
    to: Seq<char>,
    a: Option<SideFileView>,
    b: Option<SideFileView>,
    x: Option<Seq<u8>>,
    y: Option<Seq<u8>>,
) -> Option<(Seq<char>, Seq<char>)> {
    if x == y {
        match (a, b) {
            (Some(p), Some(q)) if p.executable != q.executable => Some(
                mode_entry(rel, p.executable),
            ),
            _ => None,
        }
    } else if some_binary(x) || some_binary(y) {
        Some(
            (
                "Binary files "@ + from + ":"@ + rel + " and "@ + to + ":"@ + rel + " differ\n"@,
                summary_text(rel, change_status(x is Some, y is Some), 0, 0, true),
            ),
        )
    } else {
        text_entry(rel, from, to, option_lossy(x), option_lossy(y))
    }
}

/// A diff shows every path that one side alone has, and every path whose exec
/// bit or bytes differ, but for bytes that read as the same text because what
/// is no UTF-8 in them was replaced.
pub proof fn law_diff_shows_every_change(
    rel: Seq<char>,
    from: Seq<char>,
    to: Seq<char>,
    a: Option<SideFileView>,
    b: Option<SideFileView>,
    x: Option<Seq<u8>>,
    y: Option<Seq<u8>>,
)
    requires
        a is Some == x is Some,
        b is Some == y is Some,
    ensures
        bytes_entry(rel, from, to, a, b, x, y) is None <==> {
            &&& a is Some == b is Some
            &&& if x == y {
                a is Some ==> a->0.executable == b->0.executable
            } else {
                !some_binary(x) && !some_binary(y) && option_lossy(x) == option_lossy(y)
            }
        },
{
}

/// What a diff shows of a path.
pub open spec fn path_entry(
    s: StoreView,
    rel: Seq<char>,
    from: Seq<char>,
    to: Seq<char>,
    a: Option<SideFileView>,
    b: Option<SideFileView>,
) -> Result<Option<(Seq<char>, Seq<char>)>, Seq<char>> {
    match option_side_bytes(s, a) {
        Err(e) => Err(e),
        Ok(x) => match option_side_bytes(s, b) {
            Err(e) => Err(e),
            Ok(y) => Ok(bytes_entry(rel, from, to, a, b, x, y)),
        },
    }
}

/// The path is among those that the diff is limited to.
pub open spec fn in_scope(paths: Seq<Seq<char>>, rel: Seq<char>) -> bool {
    paths.len() == 0 || selected_by(paths, rel)
}

/// What a diff shows: the text, and the summaries of the changed files.
pub struct DiffView {
    pub body: Seq<char>,
    pub summaries: Seq<Seq<char>>,
}

/// What a diff shows of the first `n` paths.
pub open spec fn diff_upto(
    s: StoreView,
    rels: Seq<Seq<char>>,
    n: nat,
    paths: Seq<Seq<char>>,
    from: Seq<char>,
    to: Seq<char>,
    a: Seq<SideFileView>,
    b: Seq<SideFileView>,
) -> Result<DiffView, Seq<char>>
    decreases n,
{
    if n == 0 || n > rels.len() {
        Ok(DiffView { body: Seq::empty(), summaries: Seq::empty() })
    } else {
        let rel = rels[n - 1];
        match diff_upto(s, rels, (n - 1) as nat, paths, from, to, a, b) {
            Err(e) => Err(e),
            Ok(d) => if !in_scope(paths, rel) {
                Ok(d)
            } else {
                match path_entry(s, rel, from, to, side_file(a, rel), side_file(b, rel)) {
                    Err(e) => Err(e),
                    Ok(None) => Ok(d),
                    Ok(Some((body, summary))) => Ok(
                        DiffView { body: d.body + body, summaries: d.summaries.push(summary) },
                    ),
                }
            },
        }
    }
}

/// What a command prints: text to standard output, or a note to standard error.
pub enum DiffReplyView {
    Text(Seq<char>),
    Note(Seq<char>),
}

/// What `diff` prints.
pub open spec fn diff_text(d: DiffView, from: Seq<char>, to: Seq<char>, json: bool) -> DiffReplyView {
    if json {
        DiffReplyView::Text(
            envelope() + ",\"from\":"@ + json_text(from) + ",\"to\":"@ + json_text(to)
                + ",\"files\":["@ + joined_by(d.summaries, ',') + "]}\n"@,
        )
    } else if d.body.len() == 0 {
        DiffReplyView::Note("no differences between "@ + from + " and "@ + to + "\n"@)
    } else {
        DiffReplyView::Text(d.body)
    }
}

/// What `diff` comes to.
pub open spec fn diff_output(
    s: StoreView,
    work: Seq<LoadedView>,
    from: Side,
    to: Side,
    paths: Seq<Seq<char>>,
    json: bool,
) -> Result<DiffReplyView, FailView> {
    match side_files(s, work, from) {
        Err(e) => Err(op_fail(e)),
        Ok(a) => match side_files(s, work, to) {
            Err(e) => Err(op_fail(e)),
            Ok(b) => {
                let rels = all_paths(a, b);
                match diff_upto(
                    s,
                    rels,
                    rels.len(),
                    paths,
                    side_text(from),
                    side_text(to),
                    a,
                    b,
                ) {
                    Err(e) => Err(op_fail(e)),
                    Ok(d) => Ok(diff_text(d, side_text(from), side_text(to), json)),
                }
            },
        },
    }
}

/// The two sides that the arguments of `diff` name.
pub open spec fn chosen_sides(s: StoreView, specs: Seq<Seq<char>>) -> Result<
    (Side, Side),
    FailView,
> {
    if specs.len() == 0 {
        match s.latest() {
            None => Err(op_fail("no snapshots yet (run 'snapref snap')"@)),
            Some(latest) => Ok((Side::Turn(latest), Side::Working)),
        }
    } else {
        match named_side(specs[0]) {
            Err(f) => Err(f),
            Ok(from) => if specs.len() == 1 {
                Ok((from, Side::Working))
            } else {
                match named_side(specs[1]) {
                    Err(f) => Err(f),
                    Ok(to) => Ok((from, to)),
                }
            },
        }
    }
}

/// The two sides that the arguments of `diff` name: without any, the latest
/// turn and the working tree.
pub fn diff_sides(store: &Store, specs: &Vec<String>) -> (r: Result<(Side, Side), Fail>)
    ensures
        match r {
            Ok(sides) => chosen_sides(store@, owned_texts(specs@)) == Ok::<(Side, Side), FailView>(
                sides,
            ),
            Err(f) => chosen_sides(store@, owned_texts(specs@)) == Err::<(Side, Side), FailView>(
                f@,
            ),
        },
{
    assert(owned_texts(specs@).len() == specs@.len());
    if specs.len() == 0 {
        match store.latest() {
            None => Err(op_err("no snapshots yet (run 'snapref snap')".to_string())),
            Some(latest) => Ok((Side::Turn(latest), Side::Working)),
        }
    } else {
        assert(owned_texts(specs@)[0] == specs@[0]@);
        let from = parse_side(specs[0].as_str())?;
        if specs.len() == 1 {
            return Ok((from, Side::Working));
        }
        assert(owned_texts(specs@)[1] == specs@[1]@);
        let to = parse_side(specs[1].as_str())?;
        Ok((from, to))
    }
}

spec fn files_view(list: Seq<SideFile>, work: Seq<LoadedView>) -> Seq<SideFileView> {
    list.map_values(|f: SideFile| f.file(work))
}

fn load_side(store: &Store, work: &[LoadedFile], side: Side) -> (r: Result<Vec<SideFile>, String>)
    ensures
        match r {
            Ok(list) => side_files(store@, loaded_views(work@), side) == Ok::<
                Seq<SideFileView>,
                Seq<char>,
            >(files_view(list@, loaded_views(work@))) && forall|i: int|
                0 <= i < list@.len() ==> (#[trigger] list@[i]).inside(loaded_views(work@)),
            Err(e) => side_files(store@, loaded_views(work@), side) == Err::<
                Seq<SideFileView>,
                Seq<char>,
            >(e@),
        },
{
    let ghost wv = loaded_views(work@);
    let mut out: Vec<SideFile> = Vec::new();
    let mut i: usize = 0;
    match side {
        Side::Turn(turn) => {
            let snap = store.snapshot(turn)?;
            let files = files_of(store, &snap)?;
            let ghost fv = file_views(files@);
            let ghost target = side_files(store@, wv, side)->Ok_0;
            while i < files.len()
                invariant
                    i <= files@.len(),
                    fv == file_views(files@),
                    target == fv.map_values(
                        |f: FileEntryView|
                            SideFileView {
                                rel: f.rel,
                                executable: f.executable,
                                source: SourceView::Blob(f.id),
                            },
                    ),
                    out@.len() == i,
                    forall|j: int| 0 <= j < i ==> (#[trigger] out@[j]).inside(wv),
                    forall|j: int| 0 <= j < i ==> (#[trigger] out@[j]).file(wv) == target[j],
                decreases files@.len() - i,
            {
                let f = &files[i];
                assert(fv[i as int] == f@);
                out.push(
                    SideFile {
                        rel: f.rel.clone(),
                        executable: f.executable,
                        source: Source::Blob(f.id.clone()),
                    },
                );
                i = i + 1;
            }
            assert(files_view(out@, wv) =~= target);
        },
        Side::Working => {
            let ghost target = side_files(store@, wv, side)->Ok_0;
            while i < work.len()
                invariant
                    i <= work@.len(),
                    wv == loaded_views(work@),
                    target == wv.map_values(
                        |f: LoadedView|
                            SideFileView {
                                rel: f.rel,
                                executable: f.executable,
                                source: SourceView::Disk(f),
                            },
                    ),
                    out@.len() == i,
                    forall|j: int| 0 <= j < i ==> (#[trigger] out@[j]).inside(wv),
                    forall|j: int| 0 <= j < i ==> (#[trigger] out@[j]).file(wv) == target[j],
                decreases work@.len() - i,
            {
                let f = &work[i];
                assert(wv[i as int] == f@);
                out.push(
                    SideFile {
                        rel: f.file.rel.clone(),
                        executable: f.file.executable,
                        source: Source::Disk(i),
                    },
                );
                i = i + 1;
            }
            assert(files_view(out@, wv) =~= target);
        },
    }
    Ok(out)
}

/// Where the file of a side at a path stands; -1 where there is none.
spec fn side_place(files: Seq<SideFileView>, rel: Seq<char>) -> int
    decreases files.len(),
{
    if files.len() == 0 {
        -1
    } else if files.last().rel == rel {
        files.len() - 1
    } else {
        side_place(files.drop_last(), rel)
    }
}

proof fn lemma_side_place(files: Seq<SideFileView>, rel: Seq<char>)
    ensures
        -1 <= side_place(files, rel) < files.len(),
        side_file(files, rel) == (if side_place(files, rel) >= 0 {
            Some(files[side_place(files, rel)])
        } else {
            None
        }),
    decreases files.len(),
{
    if files.len() > 0 && files.last().rel != rel {
        lemma_side_place(files.drop_last(), rel);
    }
}

fn index_side(list: &Vec<SideFile>, Ghost(work): Ghost<Seq<LoadedView>>) -> (m: StringHashMap<usize>)
    ensures
        forall|rel: Seq<char>| #[trigger]
            m@.contains_key(rel) <==> side_place(files_view(list@, work), rel) >= 0,
        forall|rel: Seq<char>| #[trigger]
            m@.contains_key(rel) ==> m@[rel] == side_place(files_view(list@, work), rel),
{
    let ghost v = files_view(list@, work);
    let mut m: StringHashMap<usize> = StringHashMap::new();
    let mut i: usize = 0;
    assert(v.take(0) =~= Seq::<SideFileView>::empty());
    while i < list.len()
        invariant
            i <= list@.len(),
            v == files_view(list@, work),
            forall|rel: Seq<char>| #[trigger]
                m@.contains_key(rel) <==> side_place(v.take(i as int), rel) >= 0,
            forall|rel: Seq<char>| #[trigger]
                m@.contains_key(rel) ==> m@[rel] == side_place(v.take(i as int), rel),
        decreases list@.len() - i,
    {
        proof {
            assert(v.take(i + 1).drop_last() =~= v.take(i as int));
            assert(v.take(i + 1).last().rel == list@[i as int].rel@);
        }
        m.insert(list[i].rel.clone(), i);
        i = i + 1;
    }
    assert(v.take(v.len() as int) =~= v);
    m
}

fn copy_bytes(bytes: &Vec<u8>) -> (r: Vec<u8>)
    ensures
        r@ == bytes@,
{
    let mut out: Vec<u8> = Vec::new();
    out.extend_from_slice(bytes.as_slice());
    assert(out@ =~= bytes@);
    out
}

fn read_side(store: &Store, work: &[LoadedFile], f: &SideFile) -> (r: Result<Vec<u8>, String>)
    requires
        f.inside(loaded_views(work@)),
    ensures
        match r {
            Ok(bytes) => side_bytes(store@, f.file(loaded_views(work@))) == Ok::<
                Seq<u8>,
                Seq<char>,
            >(bytes@),
            Err(e) => side_bytes(store@, f.file(loaded_views(work@))) == Err::<
                Seq<u8>,
                Seq<char>,
            >(e@),
        },
{
    match &f.source {
        Source::Blob(id) => {
            let (_, bytes) = read(store.objects(), id.as_str())?;
            Ok(bytes)
        },
        Source::Disk(i) => {
            let l = &work[*i];
            assert(loaded_views(work@)[*i as int] == l@);
            match &l.data {
                Ok(bytes) => Ok(copy_bytes(bytes)),
                Err(why) => {
                    let mut e = "cannot read ".to_string();
                    e.append(l.file.abs.as_str());
                    e.append(": ");
                    e.append(why.as_str());
                    Err(e)
                },
            }
        },
    }
}

fn render_header(side: &str, rel: &str, has: bool) -> (r: String)
    ensures
        r@ == header_name(side@, rel@, has),
{
    if has {
        text3(side, ":", rel)
    } else {
        "/dev/null".to_string()
    }
}

fn render_status(has_a: bool, has_b: bool) -> (r: &'static str)
    ensures
        r@ == change_status(has_a, has_b),
{
    if !has_a && has_b {
        "added"
    } else if has_a && !has_b {
        "deleted"
    } else {
        "modified"
    }
}

/// The contents of an optional entry of a diff.
pub open spec fn entry_view(e: Option<(String, String)>) -> Option<(Seq<char>, Seq<char>)> {
    match e {
        Some((body, summary)) => Some((body@, summary@)),
        None => None,
    }
}

/// What a diff shows of a path whose two sides are text.
pub fn diff_texts(
    rel: &str,
    from: &str,
    to: &str,
    a: &Option<String>,
    b: &Option<String>,
) -> (r: Option<(String, String)>)
    ensures
        entry_view(r) == text_entry(
            rel@,
            from@,
            to@,
            crate::object::option_text(*a),
            crate::object::option_text(*b),
        ),
{
    let x = match a {
        Some(t) => t.as_str(),
        None => "",
    };
    let y = match b {
        Some(t) => t.as_str(),
        None => "",
    };
    let a_name = render_header(from, rel, a.is_some());
    let b_name = render_header(to, rel, b.is_some());
    let body = match unified(a_name.as_str(), b_name.as_str(), x, y, 3) {
        Some(body) => body,
        None => {
            if a.is_some() == b.is_some() {
                return None;
            }
            render_diff_header(a_name.as_str(), b_name.as_str())
        },
    };
    let (add, rem) = line_changes(x, y);
    let status = render_status(a.is_some(), b.is_some());
    Some((body, diff_summary(rel, status, add, rem, false)))
}

fn option_binary(b: &Option<Vec<u8>>) -> (r: bool)
    ensures
        r == some_binary(option_bytes(*b)),
{
    match b {
        Some(v) => is_binary(v.as_slice()),
        None => false,
    }
}

fn option_text_of(b: &Option<Vec<u8>>) -> (r: Option<String>)
    ensures
        crate::object::option_text(r) == option_lossy(option_bytes(*b)),
{
    match b {
        Some(v) => Some(utf8_lossy(v.as_slice())),
        None => None,
    }
}

fn same_option(a: &Option<Vec<u8>>, b: &Option<Vec<u8>>) -> (r: bool)
    ensures
        r == (option_bytes(*a) == option_bytes(*b)),
{
    match (a, b) {
        (Some(x), Some(y)) => same_bytes(x, y),
        (None, None) => true,
        _ => false,
    }
}

fn render_mode_change(rel: &str, was: bool) -> (r: (String, String))
    ensures
        (r.0@, r.1@) == mode_entry(rel@, was),
{
    let (old_mode, new_mode) = if was {
        (MODE_EXEC, MODE_FILE)
    } else {
        (MODE_FILE, MODE_EXEC)
    };
    let mut body = text3("mode changed: ", rel, " (");
    body.append(old_mode);
    body.append(" -> ");
    body.append(new_mode);
    body.append(")\n");
    (body, diff_summary(rel, "mode-changed", 0, 0, false))
}

fn render_binary(rel: &str, from: &str, to: &str, has_a: bool, has_b: bool) -> (r: (String, String))
    ensures
        r.0@ == "Binary files "@ + from@ + ":"@ + rel@ + " and "@ + to@ + ":"@ + rel@
            + " differ\n"@,
        r.1@ == summary_text(rel@, change_status(has_a, has_b), 0, 0, true),
{
    let mut body = text3("Binary files ", from, ":");
    body.append(rel);
    body.append(" and ");
    body.append(to);
    body.append(":");
    body.append(rel);
    body.append(" differ\n");
    (body, diff_summary(rel, render_status(has_a, has_b), 0, 0, true))
}

spec fn option_file(f: Option<&SideFile>, work: Seq<LoadedView>) -> Option<SideFileView> {
    match f {
        Some(file) => Some(file.file(work)),
        None => None,
    }
}

fn diff_path(
    store: &Store,
    work: &[LoadedFile],
    rel: &str,
    from: &str,
    to: &str,
    a: Option<&SideFile>,
    b: Option<&SideFile>,
) -> (r: Result<Option<(String, String)>, String>)
    requires
        a matches Some(f) ==> f.inside(loaded_views(work@)),
        b matches Some(f) ==> f.inside(loaded_views(work@)),
    ensures
        ({
            let wv = loaded_views(work@);
            let want = path_entry(
                store@,
                rel@,
                from@,
                to@,
                option_file(a, wv),
                option_file(b, wv),
            );
            match r {
                Ok(e) => want == Ok::<Option<(Seq<char>, Seq<char>)>, Seq<char>>(entry_view(e)),
                Err(e) => want == Err::<Option<(Seq<char>, Seq<char>)>, Seq<char>>(e@),
            }
        }),
{
    let x: Option<Vec<u8>> = match a {
        Some(f) => Some(read_side(store, work, f)?),
        None => None,
    };
    let y: Option<Vec<u8>> = match b {
        Some(f) => Some(read_side(store, work, f)?),
        None => None,
    };
    if same_option(&x, &y) {
        match (a, b) {
            (Some(p), Some(q)) => {
                if p.executable != q.executable {
                    let (body, summary) = render_mode_change(rel, p.executable);
                    return Ok(Some((body, summary)));
                }
            },
            _ => {},
        }
        return Ok(None);
    }
    if option_binary(&x) || option_binary(&y) {
        let (body, summary) = render_binary(rel, from, to, x.is_some(), y.is_some());
        return Ok(Some((body, summary)));
    }
    let s = option_text_of(&x);
    let t = option_text_of(&y);
    Ok(diff_texts(rel, from, to, &s, &t))
}

fn path_list(a: &Vec<SideFile>, b: &Vec<SideFile>, Ghost(work): Ghost<Seq<LoadedView>>) -> (r: Vec<
    String,
>)
    ensures
        owned_texts(r@) == all_paths(files_view(a@, work), files_view(b@, work)),
{
    let ghost pa = side_paths(files_view(a@, work));
    let ghost pb = side_paths(files_view(b@, work));
    let mut all: Vec<String> = Vec::new();
    let mut i: usize = 0;
    while i < a.len()
        invariant
            i <= a@.len(),
            pa == side_paths(files_view(a@, work)),
            all@.len() == i,
            forall|j: int| 0 <= j < i ==> (#[trigger] all@[j])@ == pa[j],
        decreases a@.len() - i,
    {
        all.push(a[i].rel.clone());
        i = i + 1;
    }
    let mut k: usize = 0;
    while k < b.len()
        invariant
            k <= b@.len(),
            pa.len() == a@.len(),
            pb == side_paths(files_view(b@, work)),
            all@.len() == a@.len() + k,
            forall|j: int| 0 <= j < a@.len() ==> (#[trigger] all@[j])@ == pa[j],
            forall|j: int| a@.len() <= j < all@.len() ==> (#[trigger] all@[j])@ == pb[j - a@.len()],
        decreases b@.len() - k,
    {
        all.push(b[k].rel.clone());
        k = k + 1;
    }
    proof {
        assert(owned_texts(all@) =~= pa + pb);
        crate::order::lemma_sorted_map(
            all@,
            |s: String| s.key(),
            |s: String| s@,
            |p: Seq<char>| p,
        );
    }
    let sorted = sort(all);
    let ghost v = owned_texts(sorted@);
    let mut out: Vec<String> = Vec::new();
    let mut m: usize = 0;
    assert(v.take(0) =~= Seq::<Seq<char>>::empty());
    assert(owned_texts(out@) =~= Seq::<Seq<char>>::empty());
    while m < sorted.len()
        invariant
            m <= sorted@.len(),
            v == owned_texts(sorted@),
            owned_texts(out@) == without_repeats(v.take(m as int)),
        decreases sorted@.len() - m,
    {
        proof {
            assert(v.take(m + 1).drop_last() =~= v.take(m as int));
            assert(v.take(m + 1).last() == sorted@[m as int]@);
            assert(owned_texts(out@).len() == out@.len());
        }
        let n: usize = out.len();
        if n > 0 && same(out[n - 1].as_str(), sorted[m].as_str()) {
        } else {
            let ghost before = out@;
            out.push(sorted[m].clone());
            assert(owned_texts(out@) =~= owned_texts(before).push(sorted@[m as int]@));
        }
        m = m + 1;
    }
    assert(v.take(v.len() as int) =~= v);
    out
}

proof fn lemma_diff_error(
    s: StoreView,
    rels: Seq<Seq<char>>,
    n: nat,
    m: nat,
    paths: Seq<Seq<char>>,
    from: Seq<char>,
    to: Seq<char>,
    a: Seq<SideFileView>,
    b: Seq<SideFileView>,
)
    requires
        n <= m <= rels.len(),
        diff_upto(s, rels, n, paths, from, to, a, b) is Err,
    ensures
        diff_upto(s, rels, m, paths, from, to, a, b) == diff_upto(
            s,
            rels,
            n,
            paths,
            from,
            to,
            a,
            b,
        ),
    decreases m,
{
    if n < m {
        lemma_diff_error(s, rels, n, (m - 1) as nat, paths, from, to, a, b);
    }
}

/// What `diff` prints: text to standard output, or a note to standard error.
#[derive(Debug)]
pub enum DiffReply {
    Text(String),
    Note(String),
}

impl View for DiffReply {
    type V = DiffReplyView;

    open spec fn view(&self) -> DiffReplyView {
        match *self {
            DiffReply::Text(s) => DiffReplyView::Text(s@),
            DiffReply::Note(s) => DiffReplyView::Note(s@),
        }
    }
}

fn find_side<'a>(
    list: &'a Vec<SideFile>,
    at: &StringHashMap<usize>,
    rel: &str,
    Ghost(work): Ghost<Seq<LoadedView>>,
) -> (r: Option<&'a SideFile>)
    requires
        forall|rel: Seq<char>| #[trigger]
            at@.contains_key(rel) <==> side_place(files_view(list@, work), rel) >= 0,
        forall|rel: Seq<char>| #[trigger]
            at@.contains_key(rel) ==> at@[rel] == side_place(files_view(list@, work), rel),
        forall|i: int| 0 <= i < list@.len() ==> (#[trigger] list@[i]).inside(work),
    ensures
        option_file(r, work) == side_file(files_view(list@, work), rel@),
        r matches Some(f) ==> f.inside(work),
{
    proof {
        lemma_side_place(files_view(list@, work), rel@);
    }
    match at.get(rel) {
        Some(k) => {
            assert(files_view(list@, work)[*k as int] == list@[*k as int].file(work));
            Some(&list[*k])
        },
        None => None,
    }
}

/// `diff`: unified diff between two sides, limited to `paths` if there are any.
pub fn cmd_diff(
    store: &Store,
    work: &[LoadedFile],
    from: Side,
    to: Side,
    paths: &[String],
    json: bool,
) -> (r: Result<DiffReply, Fail>)
    ensures
        ({
            let want = diff_output(
                store@,
                loaded_views(work@),
                from,
                to,
                owned_texts(paths@),
                json,
            );
            match r {
                Ok(reply) => want == Ok::<DiffReplyView, FailView>(reply@),
                Err(f) => want == Err::<DiffReplyView, FailView>(f@),
            }
        }),
{
    let ghost wv = loaded_views(work@);
    let a = match load_side(store, work, from) {
        Ok(list) => list,
        Err(e) => {
            return Err(op_err(e));
        },
    };
    let b = match load_side(store, work, to) {
        Ok(list) => list,
        Err(e) => {
            return Err(op_err(e));
        },
    };
    let ghost av = files_view(a@, wv);
    let ghost bv = files_view(b@, wv);
    let a_at = index_side(&a, Ghost(wv));
    let b_at = index_side(&b, Ghost(wv));
    let rels = path_list(&a, &b, Ghost(wv));
    let ghost rv = owned_texts(rels@);
    let ghost pv = owned_texts(paths@);
    assert(pv.len() == paths@.len());
    let from_name = side_name(from);
    let to_name = side_name(to);
    let mut body = String::new();
    let mut summaries: Vec<String> = Vec::new();
    let mut i: usize = 0;
    assert(owned_texts(summaries@) =~= Seq::<Seq<char>>::empty());
    while i < rels.len()
        invariant
            i <= rels@.len(),
            wv == loaded_views(work@),
            av == files_view(a@, wv),
            bv == files_view(b@, wv),
            rv == owned_texts(rels@),
            pv == owned_texts(paths@),
            pv.len() == paths@.len(),
            from_name@ == side_text(from),
            to_name@ == side_text(to),
            forall|rel: Seq<char>| #[trigger]
                a_at@.contains_key(rel) <==> side_place(av, rel) >= 0,
            forall|rel: Seq<char>| #[trigger]
                a_at@.contains_key(rel) ==> a_at@[rel] == side_place(av, rel),
            forall|rel: Seq<char>| #[trigger]
                b_at@.contains_key(rel) <==> side_place(bv, rel) >= 0,
            forall|rel: Seq<char>| #[trigger]
                b_at@.contains_key(rel) ==> b_at@[rel] == side_place(bv, rel),
            forall|k: int| 0 <= k < a@.len() ==> (#[trigger] a@[k]).inside(wv),
            forall|k: int| 0 <= k < b@.len() ==> (#[trigger] b@[k]).inside(wv),
            side_files(store@, wv, from) == Ok::<Seq<SideFileView>, Seq<char>>(av),
            side_files(store@, wv, to) == Ok::<Seq<SideFileView>, Seq<char>>(bv),
            rv == all_paths(av, bv),
            diff_upto(store@, rv, i as nat, pv, from_name@, to_name@, av, bv) == Ok::<
                DiffView,
                Seq<char>,
            >(DiffView { body: body@, summaries: owned_texts(summaries@) }),
        decreases rels@.len() - i,
    {
        let rel = rels[i].as_str();
        assert(rv[i as int] == rel@);
        if paths.len() == 0 || is_selected(paths, rel) {
            let x = find_side(&a, &a_at, rel, Ghost(wv));
            let y = find_side(&b, &b_at, rel, Ghost(wv));
            match diff_path(store, work, rel, from_name.as_str(), to_name.as_str(), x, y) {
                Ok(Some((text, summary))) => {
                    let ghost before = summaries@;
                    body.append(text.as_str());
                    summaries.push(summary);
                    assert(owned_texts(summaries@) =~= owned_texts(before).push(summary@));
                },
                Ok(None) => {},
                Err(e) => {
                    proof {
                        lemma_diff_error(
                            store@,
                            rv,
                            (i + 1) as nat,
                            rv.len(),
                            pv,
                            from_name@,
                            to_name@,
                            av,
                            bv,
                        );
                    }
                    return Err(op_err(e));
                },
            }
        }
        i = i + 1;
    }
    if json {
        let mut out = open_envelope();
        out.append(",\"from\":");
        push_json(&mut out, from_name.as_str());
        out.append(",\"to\":");
        push_json(&mut out, to_name.as_str());
        out.append(",\"files\":[");
        push_joined(&mut out, &summaries);
        out.append("]}\n");
        return Ok(DiffReply::Text(out));
    }
    if body.as_str().is_empty() {
        let mut note = text3("no differences between ", from_name.as_str(), " and ");
        note.append(to_name.as_str());
        note.append("\n");
        return Ok(DiffReply::Note(note));
    }
    Ok(DiffReply::Text(body))
}

} // verus!
