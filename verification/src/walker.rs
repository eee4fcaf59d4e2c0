//! Deterministic working-tree walker.
//!
//! Rules: entries are visited in sorted order; `.snapref` and `.git` are
//! always skipped (at any depth); a small set of heavy build/dependency
//! directories is excluded by default; `.snaprefignore` patterns prune
//! further; symlinks are never followed (they are skipped and counted);
//! dotfiles ARE included: an agent edits `.env.example` and `.gitignore`
//! too, and restore must round-trip them.
//!
//! The walker works on a listing of the directories. `visit` tells whoever
//! makes the listing which directories the walker will enter.

use vstd::prelude::*;

use crate::glob::{patterns_view, Pattern, PatternView};
use crate::order::{
    law_sorted_by, lemma_sorted_map, picked, sort, sorted_by, sorted_places, Keyed,
};
use crate::snapshot::{below, path_below};
use crate::text::same;

verus! {

/// What a found file says.
pub struct WorkFileView {
    pub rel: Seq<char>,
    pub abs: Seq<char>,
    pub executable: bool,
}

/// One file found in the working tree.
#[derive(Debug)]
pub struct WorkFile {
    /// `/`-separated path relative to the working-tree root.
    pub rel: String,
    /// The path as it is shown to the user.
    pub abs: String,
    /// The exec bit.
    pub executable: bool,
}

impl View for WorkFile {
    type V = WorkFileView;

    open spec fn view(&self) -> WorkFileView {
        WorkFileView { rel: self.rel@, abs: self.abs@, executable: self.executable }
    }
}

impl Clone for WorkFile {
    fn clone(&self) -> (r: Self)
        ensures
            r@ == self@,
    {
        WorkFile { rel: self.rel.clone(), abs: self.abs.clone(), executable: self.executable }
    }
}

impl Keyed for WorkFile {
    open spec fn key(&self) -> Seq<char> {
        self.rel@
    }

    fn key_text(&self) -> (r: &str) {
        self.rel.as_str()
    }
}

/// The contents of a list of found files.
pub open spec fn work_views(list: Seq<WorkFile>) -> Seq<WorkFileView> {
    list.map_values(|f: WorkFile| f@)
}

/// Counters for things the walker deliberately skipped. They stop at the
/// largest `usize`.
#[derive(Debug, Clone, Copy, PartialEq, Eq, Structural)]
pub struct WalkStats {
    pub symlinks: usize,
    pub excluded: usize,
}

impl Default for WalkStats {
    fn default() -> (r: Self)
        ensures
            r == (WalkStats { symlinks: 0, excluded: 0 }),
    {
        WalkStats { symlinks: 0, excluded: 0 }
    }
}

/// What stands under a name in a directory listing.
pub enum Found {
    /// A symbolic link.
    Link,
    /// A file, with its exec bit.
    File { executable: bool },
    /// A directory, with its own listing or the reason why there is none.
    Dir(Result<Vec<FoundEntry>, String>),
    /// Something that cannot be examined, with the reason.
    Unknown(String),
}

/// A name in a directory listing, the path as it is shown to the user, and what
/// stands there.
pub struct FoundEntry {
    pub name: String,
    pub path: String,
    pub found: Found,
}

impl Keyed for FoundEntry {
    open spec fn key(&self) -> Seq<char> {
        self.name@
    }

    fn key_text(&self) -> (r: &str) {
        self.name.as_str()
    }
}

/// What the walker does with an entry.
#[derive(Debug, Clone, Copy, PartialEq, Eq, Structural)]
pub enum Visit {
    /// Leave it out without counting it.
    Skip,
    /// Count a symbolic link.
    CountLink,
    /// Count an excluded entry.
    Exclude,
    /// Go into a directory.
    Enter,
    /// Take a file.
    Take,
}

/// Names that are never snapshotted, at any depth.
pub open spec fn always_skipped(name: Seq<char>) -> bool {
    name == ".snapref"@ || name == ".git"@
}

/// Heavy, regenerable names excluded by default.
pub open spec fn excluded_by_default(name: Seq<char>) -> bool {
    ||| name == "node_modules"@
    ||| name == "target"@
    ||| name == "__pycache__"@
    ||| name == ".venv"@
    ||| name == "venv"@
    ||| name == "dist"@
    ||| name == ".cache"@
    ||| name == ".DS_Store"@
}

/// Some pattern matches the path.
pub open spec fn ignored(patterns: Seq<PatternView>, rel: Seq<char>, is_dir: bool) -> bool {
    exists|i: int| 0 <= i < patterns.len() && (#[trigger] patterns[i]).matches(rel, is_dir)
}

/// What the walker does with the entry `name` at the path `rel`.
pub open spec fn visit_of(
    name: Seq<char>,
    rel: Seq<char>,
    is_link: bool,
    is_dir: bool,
    patterns: Seq<PatternView>,
) -> Visit {
    if always_skipped(name) {
        Visit::Skip
    } else if is_link {
        Visit::CountLink
    } else if excluded_by_default(name) || ignored(patterns, rel, is_dir) {
        Visit::Exclude
    } else if is_dir {
        Visit::Enter
    } else {
        Visit::Take
    }
}

/// Whether a name is never snapshotted, at any depth.
pub fn is_always_skipped(name: &str) -> (r: bool)
    ensures
        r == always_skipped(name@),
{
    same(name, ".snapref") || same(name, ".git")
}

/// Whether a name is excluded by default.
pub fn is_excluded_by_default(name: &str) -> (r: bool)
    ensures
        r == excluded_by_default(name@),
{
    same(name, "node_modules") || same(name, "target") || same(name, "__pycache__") || same(
        name,
        ".venv",
    ) || same(name, "venv") || same(name, "dist") || same(name, ".cache") || same(
        name,
        ".DS_Store",
    )
}

/// Whether some pattern matches the path.
pub fn is_ignored(patterns: &[Pattern], rel: &str, is_dir: bool) -> (r: bool)
    ensures
        r == ignored(patterns_view(patterns@), rel@, is_dir),
{
    let ghost views = patterns_view(patterns@);
    let mut i: usize = 0;
    while i < patterns.len()
        invariant
            i <= patterns@.len(),
            views == patterns_view(patterns@),
            forall|j: int| 0 <= j < i ==> !(#[trigger] views[j]).matches(rel@, is_dir),
        decreases patterns@.len() - i,
    {
        assert(views[i as int] == patterns@[i as int]@);
        if patterns[i].matches(rel, is_dir) {
            return true;
        }
        i = i + 1;
    }
    false
}

/// What the walker does with an entry. Directories that it does not enter need
/// not be listed.
pub fn visit(name: &str, rel: &str, is_link: bool, is_dir: bool, patterns: &[Pattern]) -> (r: Visit)
    ensures
        r == visit_of(name@, rel@, is_link, is_dir, patterns_view(patterns@)),
{
    if is_always_skipped(name) {
        Visit::Skip
    } else if is_link {
        Visit::CountLink
    } else if is_excluded_by_default(name) || is_ignored(patterns, rel, is_dir) {
        Visit::Exclude
    } else if is_dir {
        Visit::Enter
    } else {
        Visit::Take
    }
}

/// The message for a name that cannot be recorded.
pub open spec fn bad_name(path: Seq<char>) -> Seq<char> {
    "file name containing a newline is not supported: "@ + path
}

/// Check that a name can be recorded.
pub fn check_name(name: &str, path: &str) -> (r: Result<(), String>)
    ensures
        match r {
            Ok(_) => !name@.contains('\n'),
            Err(e) => name@.contains('\n') && e@ == bad_name(path@),
        },
{
    match crate::text::split_once(name, '\n') {
        Some((left, right)) => {
            proof {
                crate::text::lemma_split_first(name@, '\n', left@, right@);
            }
            let mut e = "file name containing a newline is not supported: ".to_string();
            e.append(path);
            Err(e)
        },
        None => Ok(()),
    }
}

/// What walking has found: files, and how many entries were left out.
pub struct Tally {
    pub files: Seq<WorkFileView>,
    pub links: nat,
    pub excluded: nat,
}

/// Nothing found.
pub open spec fn nothing() -> Tally {
    Tally { files: Seq::empty(), links: 0, excluded: 0 }
}

/// What one entry of a listing adds.
pub struct Visited {
    pub name: Seq<char>,
    pub outcome: Result<Tally, Seq<char>>,
}

/// The first name that cannot be recorded, from `n` on.
pub open spec fn first_bad_name(list: Seq<FoundEntry>, n: int) -> Option<Seq<char>>
    decreases list.len() - n,
{
    if n < 0 || n >= list.len() {
        None
    } else if list[n].name@.contains('\n') {
        Some(bad_name(list[n].path@))
    } else {
        first_bad_name(list, n + 1)
    }
}

/// What the first `n` visits add up to; the first error ends it.
pub open spec fn summed(visits: Seq<Visited>, n: nat) -> Result<Tally, Seq<char>>
    decreases n,
{
    if n == 0 || n > visits.len() {
        Ok(nothing())
    } else {
        match summed(visits, (n - 1) as nat) {
            Err(e) => Err(e),
            Ok(t) => match visits[n - 1].outcome {
                Err(e) => Err(e),
                Ok(more) => Ok(
                    Tally {
                        files: t.files + more.files,
                        links: t.links + more.links,
                        excluded: t.excluded + more.excluded,
                    },
                ),
            },
        }
    }
}

/// What one entry of the directory `prefix` adds.
pub open spec fn entry_walk(e: FoundEntry, prefix: Seq<char>, patterns: Seq<PatternView>) -> Result<
    Tally,
    Seq<char>,
>
    decreases e, 0nat,
{
    let rel = path_below(prefix, e.name@);
    let is_dir = e.found is Dir;
    match e.found {
        Found::Unknown(why) if !always_skipped(e.name@) => Err(
            "cannot stat "@ + e.path@ + ": "@ + why@,
        ),
        _ => match visit_of(e.name@, rel, e.found is Link, is_dir, patterns) {
            Visit::Skip => Ok(nothing()),
            Visit::CountLink => Ok(Tally { links: 1, ..nothing() }),
            Visit::Exclude => Ok(Tally { excluded: 1, ..nothing() }),
            Visit::Take => Ok(
                Tally {
                    files: seq![
                        WorkFileView {
                            rel,
                            abs: e.path@,
                            executable: e.found is File && e.found->executable,
                        },
                    ],
                    ..nothing()
                },
            ),
            Visit::Enter => match e.found {
                Found::Dir(Err(msg)) => Err(msg@),
                Found::Dir(Ok(list)) => match first_bad_name(list@, 0) {
                    Some(msg) => Err(msg),
                    None => summed(
                        sorted_by(
                            visits(list, list@.len(), rel, patterns),
                            |v: Visited| v.name,
                        ),
                        list@.len(),
                    ),
                },
                _ => Ok(nothing()),
            },
        },
    }
}

/// What each of the first `n` entries of a listing adds.
pub open spec fn visits(
    list: Vec<FoundEntry>,
    n: nat,
    prefix: Seq<char>,
    patterns: Seq<PatternView>,
) -> Seq<Visited>
    decreases list, n,
{
    if n == 0 || n > list@.len() {
        Seq::empty()
    } else {
        visits(list, (n - 1) as nat, prefix, patterns).push(
            Visited {
                name: list[n - 1].name@,
                outcome: entry_walk(list[n - 1], prefix, patterns),
            },
        )
    }
}

/// What the listing of a directory adds up to, in the order of its names.
pub open spec fn list_walk(
    list: Vec<FoundEntry>,
    prefix: Seq<char>,
    patterns: Seq<PatternView>,
) -> Result<Tally, Seq<char>> {
    match first_bad_name(list@, 0) {
        Some(msg) => Err(msg),
        None => summed(
            sorted_by(visits(list, list@.len(), prefix, patterns), |v: Visited| v.name),
            list@.len(),
        ),
    }
}

pub proof fn lemma_visits(list: Vec<FoundEntry>, n: nat, prefix: Seq<char>, patterns: Seq<PatternView>)
    requires
        n <= list@.len(),
    ensures
        visits(list, n, prefix, patterns) == list@.take(n as int).map_values(
            |e: FoundEntry| Visited { name: e.name@, outcome: entry_walk(e, prefix, patterns) },
        ),
    decreases n,
{
    let all = visits(list, n, prefix, patterns);
    if n > 0 {
        lemma_visits(list, (n - 1) as nat, prefix, patterns);
    }
    assert(all =~= list@.take(n as int).map_values(
        |e: FoundEntry| Visited { name: e.name@, outcome: entry_walk(e, prefix, patterns) },
    ));
}

proof fn lemma_summed_error(vs: Seq<Visited>, n: nat, m: nat)
    requires
        n <= m <= vs.len(),
        summed(vs, n) is Err,
    ensures
        summed(vs, m) == summed(vs, n),
    decreases m,
{
    if n < m {
        lemma_summed_error(vs, n, (m - 1) as nat);
    }
}

/// A count that stops at the largest `usize`.
pub open spec fn capped(n: nat) -> usize {
    if n > usize::MAX {
        usize::MAX
    } else {
        n as usize
    }
}

/// What the walker hands out for a tally.
pub open spec fn delivers(
    old_files: Seq<WorkFileView>,
    old_stats: WalkStats,
    t: Tally,
    files: Seq<WorkFileView>,
    stats: WalkStats,
) -> bool {
    &&& files == old_files + t.files
    &&& stats.symlinks == capped(old_stats.symlinks as nat + t.links)
    &&& stats.excluded == capped(old_stats.excluded as nat + t.excluded)
}

fn check_names(list: &Vec<FoundEntry>) -> (r: Result<(), String>)
    ensures
        match r {
            Ok(_) => first_bad_name(list@, 0) is None,
            Err(e) => first_bad_name(list@, 0) == Some(e@),
        },
{
    let mut i: usize = 0;
    while i < list.len()
        invariant
            i <= list@.len(),
            first_bad_name(list@, 0) == first_bad_name(list@, i as int),
        decreases list@.len() - i,
    {
        check_name(list[i].name.as_str(), list[i].path.as_str())?;
        i = i + 1;
    }
    Ok(())
}

fn walk_dir(
    list: &Vec<FoundEntry>,
    prefix: &str,
    ignore: &[Pattern],
    files: &mut Vec<WorkFile>,
    stats: &mut WalkStats,
) -> (r: Result<(), String>)
    ensures
        match r {
            Ok(_) => match list_walk(*list, prefix@, patterns_view(ignore@)) {
                Ok(t) => delivers(
                    work_views(old(files)@),
                    *old(stats),
                    t,
                    work_views(final(files)@),
                    *final(stats),
                ),
                Err(_) => false,
            },
            Err(e) => list_walk(*list, prefix@, patterns_view(ignore@)) == Err::<Tally, Seq<char>>(
                e@,
            ),
        },
    decreases list,
{
    check_names(list)?;
    let ghost patterns = patterns_view(ignore@);
    let ghost raw = visits(*list, list@.len(), prefix@, patterns);
    let ghost vs = sorted_by(raw, |v: Visited| v.name);
    let ghost start = work_views(files@);
    let ghost first = *stats;
    let order = sorted_places(list);
    proof {
        lemma_visits(*list, list@.len(), prefix@, patterns);
        assert(list@.take(list@.len() as int) =~= list@);
        lemma_sorted_map(
            list@,
            |e: FoundEntry| e.key(),
            |e: FoundEntry| Visited { name: e.name@, outcome: entry_walk(e, prefix@, patterns) },
            |v: Visited| v.name,
        );
        law_sorted_by(raw, |v: Visited| v.name);
        assert(start + Seq::<WorkFileView>::empty() =~= start);
    }
    let mut i: usize = 0;
    while i < order.len()
        invariant
            i <= order@.len(),
            order@.len() == list@.len(),
            vs.len() == list@.len(),
            patterns == patterns_view(ignore@),
            list_walk(*list, prefix@, patterns) == summed(vs, vs.len()),
            forall|k: int| 0 <= k < order@.len() ==> #[trigger] order@[k] < list@.len(),
            picked(list@, order@).map_values(
                |e: FoundEntry| Visited { name: e.name@, outcome: entry_walk(e, prefix@, patterns) },
            ) == vs,
            match summed(vs, i as nat) {
                Ok(t) => delivers(start, first, t, work_views(files@), *stats),
                Err(_) => false,
            },
        decreases order@.len() - i,
    {
        let e = &list[order[i]];
        let ghost t = summed(vs, i as nat)->Ok_0;
        let ghost mid = work_views(files@);
        let ghost mid_stats = *stats;
        proof {
            assert(picked(list@, order@)[i as int] == *e);
            assert(vs[i as int] == Visited {
                name: e.name@,
                outcome: entry_walk(*e, prefix@, patterns),
            });
        }
        match walk_entry(e, prefix, ignore, files, stats) {
            Ok(_) => {
                proof {
                    let more = entry_walk(*e, prefix@, patterns)->Ok_0;
                    assert(start + t.files + more.files =~= start + (t.files + more.files));
                }
            },
            Err(msg) => {
                proof {
                    lemma_summed_error(vs, (i + 1) as nat, vs.len());
                }
                return Err(msg);
            },
        }
        i = i + 1;
    }
    Ok(())
}

fn walk_entry(
    e: &FoundEntry,
    prefix: &str,
    ignore: &[Pattern],
    files: &mut Vec<WorkFile>,
    stats: &mut WalkStats,
) -> (r: Result<(), String>)
    ensures
        match r {
            Ok(_) => match entry_walk(*e, prefix@, patterns_view(ignore@)) {
                Ok(t) => delivers(
                    work_views(old(files)@),
                    *old(stats),
                    t,
                    work_views(final(files)@),
                    *final(stats),
                ),
                Err(_) => false,
            },
            Err(msg) => entry_walk(*e, prefix@, patterns_view(ignore@)) == Err::<Tally, Seq<char>>(
                msg@,
            ),
        },
    decreases e,
{
    let ghost patterns = patterns_view(ignore@);
    let ghost start = work_views(files@);
    let rel = below(prefix, e.name.as_str());
    let (is_link, is_dir, executable): (bool, bool, bool) = match &e.found {
        Found::Link => (true, false, false),
        Found::File { executable } => (false, false, *executable),
        Found::Dir(_) => (false, true, false),
        Found::Unknown(why) => {
            if !is_always_skipped(e.name.as_str()) {
                let mut msg = "cannot stat ".to_string();
                msg.append(e.path.as_str());
                msg.append(": ");
                msg.append(why.as_str());
                return Err(msg);
            }
            (false, false, false)
        },
    };
    let what = visit(e.name.as_str(), rel.as_str(), is_link, is_dir, ignore);
    assert(start + Seq::<WorkFileView>::empty() =~= start);
    match what {
        Visit::Skip => {},
        Visit::CountLink => {
            stats.symlinks = stats.symlinks.saturating_add(1);
        },
        Visit::Exclude => {
            stats.excluded = stats.excluded.saturating_add(1);
        },
        Visit::Take => {
            let file = WorkFile { rel, abs: e.path.clone(), executable };
            let ghost before = files@;
            files.push(file);
            proof {
                assert(work_views(files@) =~= work_views(before).push(file@));
                assert(start.push(file@) =~= start + seq![file@]);
            }
        },
        Visit::Enter => {
            match &e.found {
                Found::Dir(Ok(list)) => {
                    walk_dir(list, rel.as_str(), ignore, files, stats)?;
                },
                Found::Dir(Err(msg)) => {
                    return Err(msg.clone());
                },
                _ => {},
            }
        },
    }
    Ok(())
}

/// The files that a walk finds, in the order of their paths, and its counters.
pub open spec fn walked(
    root: Result<Vec<FoundEntry>, String>,
    patterns: Seq<PatternView>,
) -> Result<(Seq<WorkFileView>, WalkStats), Seq<char>> {
    match root {
        Err(msg) => Err(msg@),
        Ok(list) => match list_walk(list, Seq::empty(), patterns) {
            Err(e) => Err(e),
            Ok(t) => Ok(
                (
                    sorted_by(t.files, |f: WorkFileView| f.rel),
                    WalkStats { symlinks: capped(t.links), excluded: capped(t.excluded) },
                ),
            ),
        },
    }
}

/// Walk the listing of the working tree's root, returning files sorted by
/// relative path.
pub fn walk(root: &Result<Vec<FoundEntry>, String>, ignore: &[Pattern]) -> (r: Result<
    (Vec<WorkFile>, WalkStats),
    String,
>)
    ensures
        match r {
            Ok((files, stats)) => walked(*root, patterns_view(ignore@)) == Ok::<
                (Seq<WorkFileView>, WalkStats),
                Seq<char>,
            >((work_views(files@), stats)),
            Err(e) => walked(*root, patterns_view(ignore@)) == Err::<
                (Seq<WorkFileView>, WalkStats),
                Seq<char>,
            >(e@),
        },
{
    let list = match root {
        Ok(list) => list,
        Err(msg) => {
            return Err(msg.clone());
        },
    };
    let mut files: Vec<WorkFile> = Vec::new();
    let mut stats = WalkStats::default();
    proof {
        reveal_strlit("");
        assert(""@ =~= Seq::<char>::empty());
    }
    walk_dir(list, "", ignore, &mut files, &mut stats)?;
    proof {
        let t = list_walk(*list, Seq::empty(), patterns_view(ignore@))->Ok_0;
        assert(work_views(files@) =~= t.files);
        lemma_sorted_map(
            files@,
            |f: WorkFile| f.key(),
            |f: WorkFile| f@,
            |f: WorkFileView| f.rel,
        );
    }
    Ok((sort(files), stats))
}

/// The contents of a directory that the walker does not enter do not matter.
pub proof fn law_pruned_directory_is_not_read(
    a: FoundEntry,
    b: FoundEntry,
    prefix: Seq<char>,
    patterns: Seq<PatternView>,
)
    requires
        a.name@ == b.name@,
        a.found is Dir,
        b.found is Dir,
        visit_of(a.name@, path_below(prefix, a.name@), false, true, patterns) != Visit::Enter,
    ensures
        entry_walk(a, prefix, patterns) == entry_walk(b, prefix, patterns),
{
}

/// Some exec bit is set in a Unix file mode.
pub open spec fn mode_is_exec(mode: u32) -> bool {
    mode & 0o111 != 0
}

/// Whether a Unix file mode is that of an executable file.
pub fn is_exec(mode: u32) -> (r: bool)
    ensures
        r == mode_is_exec(mode),
{
    mode & 0o111 != 0
}

} // verus!
