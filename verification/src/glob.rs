//! Minimal gitignore-flavored glob matching for `.snaprefignore`.
//!
//! Supported: `*` (within a path component), `?` (one byte), `**` (zero or
//! more whole components), a trailing `/` (directories only), and a `/`
//! anywhere else (anchors the pattern at the working-tree root). A pattern
//! without `/` matches a file or directory *name* at any depth. `#` starts
//! a comment; blank lines are ignored. Negation (`!`) is not supported and
//! such lines are skipped.

use vstd::prelude::*;
use vstd::utf8::encode_utf8;

use crate::text::{
    chars_of, components, lemma_components_concat, lines, own, own_all, owned_texts, same,
    split_path, string_of, text_lines, texts, trim, trimmed,
};

verus! {

/// What a pattern says.
pub struct PatternView {
    /// The pattern names a path from the root, not just a name.
    pub anchored: bool,
    /// Only directories match.
    pub dir_only: bool,
    /// The components of the pattern.
    pub comps: Seq<Seq<char>>,
}

/// One compiled ignore pattern.
#[derive(Debug)]
pub struct Pattern {
    anchored: bool,
    dir_only: bool,
    comps: Vec<String>,
}

impl View for Pattern {
    type V = PatternView;

    closed spec fn view(&self) -> PatternView {
        PatternView {
            anchored: self.anchored,
            dir_only: self.dir_only,
            comps: owned_texts(self.comps@),
        }
    }
}

impl Clone for Pattern {
    fn clone(&self) -> (r: Self)
        ensures
            r@ == self@,
    {
        proof {
            use_type_invariant(self);
        }
        let comps = own_all(&self.comps);
        assert(owned_texts(comps@).len() == comps@.len());
        assert(owned_texts(self.comps@).len() == self.comps@.len());
        Pattern { anchored: self.anchored, dir_only: self.dir_only, comps }
    }
}

/// A component pattern matches a name: `*` stands for any run of bytes, `?`
/// for one byte, every other byte for itself.
pub open spec fn name_matches(pat: Seq<u8>, name: Seq<u8>) -> bool
    decreases pat.len() + name.len(),
{
    if pat.len() == 0 {
        name.len() == 0
    } else if pat[0] == 42 {
        ||| name_matches(pat.drop_first(), name)
        ||| name.len() > 0 && name_matches(pat, name.drop_first())
    } else {
        &&& name.len() > 0
        &&& pat[0] == 63 || pat[0] == name[0]
        &&& name_matches(pat.drop_first(), name.drop_first())
    }
}

/// The component `**`.
pub open spec fn spans(comp: Seq<char>) -> bool {
    comp == "**"@
}

/// Pattern components match path components: `**` stands for any run of them,
/// every other one matches a single name.
pub open spec fn path_matches(pats: Seq<Seq<char>>, comps: Seq<Seq<char>>) -> bool
    decreases pats.len() + comps.len(),
{
    if pats.len() == 0 {
        comps.len() == 0
    } else if spans(pats[0]) {
        ||| path_matches(pats.drop_first(), comps)
        ||| comps.len() > 0 && path_matches(pats, comps.drop_first())
    } else {
        &&& comps.len() > 0
        &&& name_matches(encode_utf8(pats[0]), encode_utf8(comps[0]))
        &&& path_matches(pats.drop_first(), comps.drop_first())
    }
}

impl PatternView {
    /// The pattern matches the path `rel`, which names a directory or not.
    pub open spec fn matches(self, rel: Seq<char>, is_dir: bool) -> bool {
        let comps = components(rel);
        &&& self.dir_only ==> is_dir
        &&& comps.len() > 0
        &&& if self.anchored {
            path_matches(self.comps, comps)
        } else {
            name_matches(encode_utf8(self.comps[0]), encode_utf8(comps.last()))
        }
    }
}

/// The text without the slashes at its end.
pub open spec fn without_slashes(s: Seq<char>) -> Seq<char>
    decreases s.len(),
{
    if s.len() > 0 && s.last() == '/' {
        without_slashes(s.drop_last())
    } else {
        s
    }
}

/// The pattern that a line of an ignore file stands for, if any.
pub open spec fn parsed_pattern(line: Seq<char>) -> Option<PatternView> {
    let t = trimmed(line);
    if t.len() == 0 || t[0] == '#' || t[0] == '!' {
        None
    } else {
        let p = without_slashes(t);
        if components(p).len() == 0 {
            None
        } else {
            Some(
                PatternView {
                    anchored: p.contains('/'),
                    dir_only: t.last() == '/',
                    comps: components(p),
                },
            )
        }
    }
}

/// The patterns that the lines of an ignore file stand for.
pub open spec fn parsed_patterns(lines: Seq<Seq<char>>) -> Seq<PatternView>
    decreases lines.len(),
{
    if lines.len() == 0 {
        Seq::empty()
    } else {
        let before = parsed_patterns(lines.drop_last());
        match parsed_pattern(lines.last()) {
            Some(p) => before.push(p),
            None => before,
        }
    }
}

/// The contents of a list of patterns.
pub open spec fn patterns_view(list: Seq<Pattern>) -> Seq<PatternView> {
    list.map_values(|p: Pattern| p@)
}

/// The patterns of an ignore file.
pub open spec fn ignore_file(text: Seq<char>) -> Seq<PatternView> {
    parsed_patterns(text_lines(text))
}

impl Pattern {
    /// A pattern has at least one component.
    #[verifier::type_invariant]
    closed spec fn has_component(self) -> bool {
        self.comps@.len() > 0
    }

    /// Parse a single `.snaprefignore` line. Returns `None` for blanks,
    /// comments and (unsupported) negations.
    pub fn parse(line: &str) -> (r: Option<Pattern>)
        ensures
            match r {
                Some(p) => parsed_pattern(line@) == Some(p@),
                None => parsed_pattern(line@) is None,
            },
    {
        let text = trim(line);
        let chars = chars_of(text.as_str());
        let n: usize = chars.len();
        if n == 0 || chars[0] == '#' || chars[0] == '!' {
            return None;
        }
        let dir_only: bool = chars[n - 1] == '/';
        let mut end: usize = n;
        assert(chars@.take(n as int) =~= chars@);
        while end > 0 && chars[end - 1] == '/'
            invariant
                end <= n,
                n == chars@.len(),
                without_slashes(chars@) == without_slashes(chars@.take(end as int)),
            decreases end,
        {
            assert(chars@.take(end as int).drop_last() =~= chars@.take(end - 1));
            end = end - 1;
        }
        let mut anchored: bool = false;
        let mut i: usize = 0;
        while i < end
            invariant
                i <= end <= n,
                n == chars@.len(),
                anchored <==> exists|j: int| 0 <= j < i && chars@[j] == '/',
            decreases end - i,
        {
            if chars[i] == '/' {
                anchored = true;
            }
            i = i + 1;
        }
        let body = string_of(chars.as_slice(), 0, end);
        proof {
            assert(body@ =~= chars@.take(end as int));
            assert(body@ == without_slashes(text@));
            if anchored {
                let j = choose|j: int| 0 <= j < end && chars@[j] == '/';
                assert(body@[j] == '/');
            }
        }
        let comps = split_path(body.as_str());
        assert(texts(comps@).len() == comps@.len());
        if comps.len() == 0 {
            return None;
        }
        let comps = own(&comps);
        assert(owned_texts(comps@).len() == comps@.len());
        Some(Pattern { anchored, dir_only, comps })
    }

    /// Test a `/`-separated path relative to the working-tree root.
    /// `is_dir` says whether the path names a directory (the walker tests
    /// every directory it is about to descend into, so a matching directory
    /// prunes its whole subtree).
    pub fn matches(&self, rel: &str, is_dir: bool) -> (r: bool)
        ensures
            r == self@.matches(rel@, is_dir),
    {
        proof {
            use_type_invariant(self);
        }
        if self.dir_only && !is_dir {
            return false;
        }
        let comps = split_path(rel);
        assert(texts(comps@).len() == comps@.len());
        if comps.len() == 0 {
            return false;
        }
        if self.anchored {
            assert(owned_texts(self.comps@).skip(0) =~= owned_texts(self.comps@));
            assert(texts(comps@).skip(0) =~= texts(comps@));
            comps_match(&self.comps, 0, &comps, 0)
        } else {
            // Bare name: match the entry's own (last) component at any depth.
            let last = comps[comps.len() - 1];
            assert(last@ == texts(comps@).last());
            comp_match(self.comps[0].as_str().as_bytes(), last.as_bytes())
        }
    }
}

/// Parse a whole ignore file into patterns, skipping blanks and comments.
pub fn parse_lines(text: &str) -> (r: Vec<Pattern>)
    ensures
        patterns_view(r@) == ignore_file(text@),
{
    let all = lines(text);
    let ghost views = text_lines(text@);
    let mut out: Vec<Pattern> = Vec::new();
    let mut i: usize = 0;
    assert(views.take(0) =~= Seq::<Seq<char>>::empty());
    assert(patterns_view(out@) =~= Seq::<PatternView>::empty());
    while i < all.len()
        invariant
            i <= all@.len(),
            texts(all@) == views,
            patterns_view(out@) == parsed_patterns(views.take(i as int)),
        decreases all@.len() - i,
    {
        assert(views.take(i + 1).drop_last() =~= views.take(i as int));
        assert(views.take(i + 1).last() == all@[i as int]@);
        match Pattern::parse(all[i]) {
            Some(p) => {
                let ghost before = out@;
                out.push(p);
                assert(patterns_view(out@) =~= patterns_view(before).push(p@));
            },
            None => {},
        }
        i = i + 1;
    }
    assert(views.take(all@.len() as int) =~= views);
    out
}

/// Without a `*` in between, a match of a longer rest is a match of a shorter
/// one further on.
proof fn lemma_step_over(pat: Seq<u8>, name: Seq<u8>, q: int, k: int, p: int)
    requires
        0 <= q <= p <= pat.len(),
        0 <= k <= name.len(),
        forall|j: int| q <= j < p ==> pat[j] != 42,
        name_matches(pat.skip(q), name.skip(k)),
    ensures
        k + (p - q) <= name.len(),
        name_matches(pat.skip(p), name.skip(k + (p - q))),
    decreases p - q,
{
    if q < p {
        assert(pat.skip(q)[0] == pat[q]);
        assert(pat.skip(q).drop_first() =~= pat.skip(q + 1));
        assert(name.skip(k).drop_first() =~= name.skip(k + 1));
        lemma_step_over(pat, name, q + 1, k + 1, p);
    }
}

/// The pattern from `q` on matches the name from some place on that is not
/// before `from`.
spec fn found(pat: Seq<u8>, name: Seq<u8>, q: int, from: int) -> bool {
    exists|k: int| from <= k <= name.len() && #[trigger] name_matches(pat.skip(q), name.skip(k))
}

/// The star at `p` matches what follows it at `i` or later.
proof fn lemma_star(pat: Seq<u8>, name: Seq<u8>, p: int, i: int)
    requires
        0 <= p < pat.len(),
        0 <= i <= name.len(),
        pat[p] == 42,
    ensures
        name_matches(pat.skip(p), name.skip(i)) == found(pat, name, p + 1, i),
    decreases name.len() - i,
{
    assert(pat.skip(p)[0] == 42);
    assert(pat.skip(p).drop_first() =~= pat.skip(p + 1));
    if i < name.len() {
        assert(name.skip(i).drop_first() =~= name.skip(i + 1));
        lemma_star(pat, name, p, i + 1);
    }
    if name_matches(pat.skip(p + 1), name.skip(i)) {
        assert(found(pat, name, p + 1, i));
    }
}

/// A rest of a pattern matches the empty name where it is all stars.
proof fn lemma_empty_name(pat: Seq<u8>, name: Seq<u8>, p: int)
    requires
        0 <= p <= pat.len(),
    ensures
        name_matches(pat.skip(p), name.skip(name.len() as int)) == (p == pat.len() || (pat[p] == 42
            && name_matches(pat.skip(p + 1), name.skip(name.len() as int)))),
{
    let none = name.skip(name.len() as int);
    if p < pat.len() {
        assert(pat.skip(p)[0] == pat[p]);
        if pat[p] == 42 {
            lemma_star(pat, name, p, name.len() as int);
        }
    }
}

/// Match one component pattern (`*`, `?`, literals) against one name.
/// Byte-wise: `?` consumes a single byte, which is intentional and cheap;
/// multi-byte UTF-8 names still match exactly via literals and `*`.
fn comp_match(pat: &[u8], s: &[u8]) -> (r: bool)
    ensures
        r == name_matches(pat@, s@),
{
    let ghost full = name_matches(pat@, s@);
    let mut p: usize = 0;
    let mut i: usize = 0;
    // Behind the last star: where the pattern goes on, and the first place in
    // the name that has not been ruled out for it.
    let mut star: Option<(usize, usize)> = None;
    assert(pat@.skip(0) =~= pat@);
    assert(s@.skip(0) =~= s@);
    while i < s.len()
        invariant
            full == name_matches(pat@, s@),
            p <= pat@.len(),
            i <= s@.len(),
            match star {
                None => full == name_matches(pat@.skip(p as int), s@.skip(i as int)),
                Some((q, at)) => {
                    &&& q <= p
                    &&& at <= i
                    &&& i - at == p - q
                    &&& forall|j: int| q <= j < p ==> pat@[j] != 42
                    &&& name_matches(pat@.skip(q as int), s@.skip(at as int)) == name_matches(
                        pat@.skip(p as int),
                        s@.skip(i as int),
                    )
                    &&& full == found(pat@, s@, q as int, at as int)
                },
            },
        decreases
                (match star {
                    None => pat@.len() as int + 1,
                    Some((q, _)) => pat@.len() - q,
                }),
                (match star {
                    None => 0,
                    Some((_, at)) => s@.len() - at,
                }),
                s@.len() - i,
    {
        let ghost here = name_matches(pat@.skip(p as int), s@.skip(i as int));
        if p < pat.len() && pat[p] == 42 {
            proof {
                lemma_star(pat@, s@, p as int, i as int);
                if let Some((q, at)) = star {
                    lemma_later_star(pat@, s@, q as int, at as int, p as int);
                }
            }
            star = Some((p + 1, i));
            p = p + 1;
        } else if p < pat.len() && (pat[p] == 63 || pat[p] == s[i]) {
            proof {
                assert(pat@.skip(p as int)[0] == pat@[p as int]);
                assert(s@.skip(i as int)[0] == s@[i as int]);
                assert(pat@.skip(p as int).drop_first() =~= pat@.skip(p + 1));
                assert(s@.skip(i as int).drop_first() =~= s@.skip(i + 1));
            }
            p = p + 1;
            i = i + 1;
        } else {
            proof {
                if p < pat@.len() {
                    assert(pat@.skip(p as int)[0] == pat@[p as int]);
                    assert(s@.skip(i as int)[0] == s@[i as int]);
                }
                assert(!here);
            }
            match star {
                None => {
                    return false;
                },
                Some((q, at)) => {
                    assert(found(pat@, s@, q as int, at as int) == found(
                        pat@,
                        s@,
                        q as int,
                        at + 1,
                    ));
                    star = Some((q, at + 1));
                    p = q;
                    i = at + 1;
                },
            }
        }
    }
    proof {
        if let Some((q, at)) = star {
            if full {
                let k = choose|k: int|
                    at <= k <= s@.len() && #[trigger] name_matches(
                        pat@.skip(q as int),
                        s@.skip(k),
                    );
                lemma_step_over(pat@, s@, q as int, k, p as int);
            }
        }
    }
    while p < pat.len() && pat[p] == 42
        invariant
            full == name_matches(pat@, s@),
            p <= pat@.len(),
            full == name_matches(pat@.skip(p as int), s@.skip(s@.len() as int)),
        decreases pat@.len() - p,
    {
        proof {
            lemma_empty_name(pat@, s@, p as int);
        }
        p = p + 1;
    }
    proof {
        lemma_empty_name(pat@, s@, p as int);
    }
    p == pat.len()
}

/// Between two stars nothing is lost by trying only the first place: what the
/// pattern matches further on, the second star reaches as well.
proof fn lemma_later_star(pat: Seq<u8>, name: Seq<u8>, q: int, at: int, p: int)
    requires
        0 <= q <= p < pat.len(),
        0 <= at,
        at + (p - q) <= name.len(),
        pat[p] == 42,
        forall|j: int| q <= j < p ==> pat[j] != 42,
        name_matches(pat.skip(q), name.skip(at)) == name_matches(
            pat.skip(p),
            name.skip(at + (p - q)),
        ),
    ensures
        found(pat, name, q, at) == found(pat, name, p + 1, at + (p - q)),
{
    let i = at + (p - q);
    lemma_star(pat, name, p, i);
    if found(pat, name, q, at) {
        let k = choose|k: int|
            at <= k <= name.len() && #[trigger] name_matches(pat.skip(q), name.skip(k));
        lemma_step_over(pat, name, q, k, p);
        lemma_star(pat, name, p, k + (p - q));
        let t = choose|t: int|
            k + (p - q) <= t <= name.len() && #[trigger] name_matches(
                pat.skip(p + 1),
                name.skip(t),
            );
        assert(name_matches(pat.skip(p + 1), name.skip(t)));
    }
}

/// Match pattern components from `p` on against path components from `c` on,
/// `**` spanning any run.
fn comps_match(pats: &Vec<String>, p: usize, comps: &Vec<&str>, c: usize) -> (r: bool)
    requires
        p <= pats@.len(),
        c <= comps@.len(),
    ensures
        r == path_matches(owned_texts(pats@).skip(p as int), texts(comps@).skip(c as int)),
    decreases pats@.len() - p,
{
    let ghost sp = owned_texts(pats@);
    let ghost sc = texts(comps@);
    if p == pats.len() {
        return c == comps.len();
    }
    proof {
        assert(sp.skip(p as int)[0] == pats@[p as int]@);
        assert(sp.skip(p as int).drop_first() =~= sp.skip(p + 1));
    }
    if same(pats[p].as_str(), "**") {
        let mut k: usize = c;
        loop
            invariant
                p < pats@.len(),
                pats@.len() <= usize::MAX,
                c <= k <= comps@.len(),
                sp == owned_texts(pats@),
                sc == texts(comps@),
                spans(sp.skip(p as int)[0]),
                sp.skip(p as int).drop_first() == sp.skip(p + 1),
                path_matches(sp.skip(p as int), sc.skip(c as int)) == path_matches(
                    sp.skip(p as int),
                    sc.skip(k as int),
                ),
            decreases comps@.len() - k,
        {
            if comps_match(pats, p + 1, comps, k) {
                return true;
            }
            if k == comps.len() {
                return false;
            }
            assert(sc.skip(k as int).drop_first() =~= sc.skip(k + 1));
            k = k + 1;
        }
    }
    if c == comps.len() {
        return false;
    }
    proof {
        assert(sc.skip(c as int)[0] == comps@[c as int]@);
        assert(sc.skip(c as int).drop_first() =~= sc.skip(c + 1));
    }
    comp_match(pats[p].as_str().as_bytes(), comps[c].as_bytes()) && comps_match(
        pats,
        p + 1,
        comps,
        c + 1,
    )
}

/// `*` stands for any run of bytes.
pub proof fn law_star_stands_for_any_run(pat: Seq<u8>, run: Seq<u8>, rest: Seq<u8>)
    requires
        name_matches(pat, rest),
    ensures
        name_matches(seq![42u8] + pat, run + rest),
    decreases run.len(),
{
    let whole = seq![42u8] + pat;
    assert(whole[0] == 42);
    assert(whole.drop_first() =~= pat);
    if run.len() == 0 {
        assert(run + rest =~= rest);
    } else {
        law_star_stands_for_any_run(pat, run.drop_first(), rest);
        assert((run + rest).drop_first() =~= run.drop_first() + rest);
    }
}

/// `*` alone matches every name.
pub proof fn law_star_matches_every_name(name: Seq<u8>)
    ensures
        name_matches(seq![42u8], name),
{
    law_star_stands_for_any_run(Seq::empty(), name, Seq::empty());
    assert(name + Seq::<u8>::empty() =~= name);
    assert(seq![42u8] + Seq::<u8>::empty() =~= seq![42u8]);
}

/// `?` stands for exactly one byte.
pub proof fn law_question_mark_stands_for_one_byte(pat: Seq<u8>, name: Seq<u8>)
    ensures
        name_matches(seq![63u8] + pat, name) == (name.len() > 0 && name_matches(
            pat,
            name.drop_first(),
        )),
{
    let whole = seq![63u8] + pat;
    assert(whole[0] == 63);
    assert(whole.drop_first() =~= pat);
}

/// A component pattern without wildcards matches its own text and nothing else.
pub proof fn law_literal_matches_itself(pat: Seq<u8>, name: Seq<u8>)
    requires
        !pat.contains(42),
        !pat.contains(63),
    ensures
        name_matches(pat, name) == (pat == name),
    decreases pat.len(),
{
    if pat.len() == 0 {
        if name.len() == 0 {
            assert(pat =~= name);
        }
    } else {
        assert(pat.contains(pat[0]));
        let tail = pat.drop_first();
        assert forall|b: u8| tail.contains(b) implies pat.contains(b) by {
            let i = choose|i: int| 0 <= i < tail.len() && tail[i] == b;
            assert(pat[i + 1] == b);
        }
        if name.len() > 0 {
            law_literal_matches_itself(tail, name.drop_first());
            if pat[0] == name[0] && tail == name.drop_first() {
                assert(pat =~= seq![pat[0]] + tail);
                assert(name =~= seq![name[0]] + name.drop_first());
            }
        }
    }
}

/// `**` stands for zero or more whole components.
pub proof fn law_double_star_spans_components(
    pats: Seq<Seq<char>>,
    run: Seq<Seq<char>>,
    rest: Seq<Seq<char>>,
)
    requires
        path_matches(pats, rest),
    ensures
        path_matches(seq!["**"@] + pats, run + rest),
    decreases run.len(),
{
    let whole = seq!["**"@] + pats;
    assert(spans(whole[0]));
    assert(whole.drop_first() =~= pats);
    if run.len() == 0 {
        assert(run + rest =~= rest);
    } else {
        law_double_star_spans_components(pats, run.drop_first(), rest);
        assert((run + rest).drop_first() =~= run.drop_first() + rest);
    }
}

/// Without `**`, each component of a pattern matches within one component of
/// the path.
pub proof fn law_star_stays_within_a_component(pats: Seq<Seq<char>>, comps: Seq<Seq<char>>)
    requires
        forall|i: int| 0 <= i < pats.len() ==> !spans(#[trigger] pats[i]),
    ensures
        path_matches(pats, comps) <==> pats.len() == comps.len() && forall|i: int|
            0 <= i < pats.len() ==> name_matches(
                encode_utf8(#[trigger] pats[i]),
                encode_utf8(comps[i]),
            ),
    decreases pats.len(),
{
    if pats.len() > 0 && comps.len() > 0 {
        let p = pats.drop_first();
        let c = comps.drop_first();
        assert forall|i: int| 0 <= i < p.len() implies !spans(#[trigger] p[i]) by {
            assert(p[i] == pats[i + 1]);
        }
        law_star_stays_within_a_component(p, c);
        assert(!spans(pats[0]));
        if path_matches(pats, comps) {
            assert forall|i: int| 0 <= i < pats.len() implies name_matches(
                encode_utf8(#[trigger] pats[i]),
                encode_utf8(comps[i]),
            ) by {
                if i > 0 {
                    assert(p[i - 1] == pats[i]);
                }
            }
        } else if pats.len() == comps.len() && (forall|i: int|
            0 <= i < pats.len() ==> name_matches(
                encode_utf8(#[trigger] pats[i]),
                encode_utf8(comps[i]),
            )) {
            assert forall|i: int| 0 <= i < p.len() implies name_matches(
                encode_utf8(#[trigger] p[i]),
                encode_utf8(c[i]),
            ) by {
                assert(p[i] == pats[i + 1]);
            }
            assert(name_matches(encode_utf8(pats[0]), encode_utf8(comps[0])));
        }
    } else if pats.len() > 0 {
        assert(!spans(pats[0]));
    }
}

/// A pattern without a slash matches a name at any depth.
pub proof fn law_bare_name_matches_at_any_depth(
    p: PatternView,
    dir: Seq<char>,
    rel: Seq<char>,
    is_dir: bool,
)
    requires
        !p.anchored,
        components(rel).len() > 0,
    ensures
        p.matches(dir.push('/') + rel, is_dir) == p.matches(rel, is_dir),
{
    lemma_components_concat(dir, rel);
}

/// A pattern for directories only matches no file.
pub proof fn law_dir_pattern_matches_no_file(p: PatternView, rel: Seq<char>)
    requires
        p.dir_only,
    ensures
        !p.matches(rel, false),
{
}

} // verus!
