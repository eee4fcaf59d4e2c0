//! What the words of the library mean on their own: numerals, lines, components,
//! the order of texts, and what tells binary files and programs.

use vstd::prelude::*;
use vstd::utf8::encode_utf8;

use crate::calendar::digit_char;
use crate::commands::{init_text, spaces};
use crate::decimal::{
    all_digits, digit, is_digit, numeral, signed_numeral, u64_value, unsigned_value, value,
};
use crate::diff::binary;
use crate::order::{bytes_before, text_before};
use crate::restore::with_exec;
use crate::snapshot::path_below;
use crate::store::format_error;
use crate::text::{
    components, flattened, joined_by, lemma_components_concat, lemma_joined_pieces,
    lemma_nonempty_concat, lemma_pieces_concat, lemma_pieces_nonempty, lemma_pieces_single,
    lines_of, nonempty, pieces, text_lines, trimmed, white_space, words,
};
use crate::tree::file_mode;
use crate::walker::mode_is_exec;

verus! {

/// A numeral grows by one digit where its number is multiplied by ten.
pub proof fn law_numerals_are_decimal(n: nat, d: int)
    requires
        0 <= d < 10,
    ensures
        numeral(d as nat) == seq![digit_char(d)],
        n > 0 ==> numeral(10 * n + d as nat) == numeral(n).push(digit_char(d)),
        n > 0 ==> signed_numeral(-(n as int)) == seq!['-'] + numeral(n),
        signed_numeral(n as int) == numeral(n),
{
    assert(digit(d as nat) == digit_char(d));
    if n > 0 {
        let m: nat = 10 * n + d as nat;
        assert(m / 10 == n && m % 10 == d);
    }
}

/// Digits are read from left to right; a plus sign may stand before them and
/// nothing else may stand among them; what does not fit is no number.
pub proof fn law_numbers_are_read_digit_by_digit(s: Seq<char>, d: int)
    requires
        0 <= d < 10,
    ensures
        unsigned_value(seq![digit_char(d)]) == Some(d as nat),
        unsigned_value(s) matches Some(v) ==> unsigned_value(s.push(digit_char(d))) == Some(
            10 * v + d as nat,
        ),
        unsigned_value(s) is Some && s.len() > 0 && s[0] != '+' ==> unsigned_value(seq!['+'] + s)
            == unsigned_value(s),
        forall|i: int|
            1 <= i < s.len() && !('0' <= #[trigger] s[i] <= '9') ==> unsigned_value(s) is None,
        s.len() == 0 ==> unsigned_value(s) is None,
        s.len() > 0 && !('0' <= s[0] <= '9') && s[0] != '+' ==> unsigned_value(s) is None,
        u64_value(s) matches Some(n) ==> unsigned_value(s) == Some(n as nat),
        u64_value(s) is None ==> unsigned_value(s) is None || unsigned_value(s)->0
            > 18_446_744_073_709_551_615,
{
    let c = digit_char(d);
    let one = seq![c];
    assert(digit(d as nat) == c && is_digit(c));
    assert(all_digits(one));
    assert(one.drop_last() =~= Seq::<char>::empty());
    assert(value(Seq::<char>::empty()) == 0);
    assert(value(one) == d);
    if unsigned_value(s) is Some {
        let t = s.push(c);
        assert(t.drop_last() =~= s);
        if all_digits(s) {
            assert forall|i: int| 0 <= i < t.len() implies is_digit(#[trigger] t[i]) by {
                if i < s.len() {
                    assert(t[i] == s[i]);
                }
            }
        } else {
            let u = s.drop_first();
            let v = t.drop_first();
            assert(v =~= u.push(c));
            assert(v.drop_last() =~= u);
            assert forall|i: int| 0 <= i < v.len() implies is_digit(#[trigger] v[i]) by {
                if i < u.len() {
                    assert(v[i] == u[i]);
                }
            }
            assert(!is_digit('+'));
            assert(t[0] == '+');
            assert(!all_digits(t));
        }
        let plus = seq!['+'] + s;
        assert(plus[0] == '+' && !is_digit('+'));
        assert(plus.drop_first() =~= s);
        assert(!all_digits(plus));
    }
    assert forall|i: int| 1 <= i < s.len() && !('0' <= #[trigger] s[i] <= '9') implies
        unsigned_value(s) is None by {
        assert(!is_digit(s[i]));
        assert(s.drop_first()[i - 1] == s[i]);
    }
    if s.len() > 0 && !('0' <= s[0] <= '9') {
        assert(!is_digit(s[0]));
    }
}

/// Padding is made of spaces, as many as it takes.
pub proof fn law_padding_is_spaces(n: nat)
    ensures
        spaces(n as int).len() == n,
        forall|i: int| 0 <= i < n ==> #[trigger] spaces(n as int)[i] == ' ',
        spaces(-(n as int)).len() == 0,
{
}

/// The first `k` bytes of two texts are the same, and there the order is decided:
/// the first ends, or its next byte is smaller.
pub open spec fn decided_at(a: Seq<u8>, b: Seq<u8>, k: int) -> bool {
    &&& 0 <= k <= a.len()
    &&& k < b.len()
    &&& forall|i: int| 0 <= i < k ==> #[trigger] a[i] == b[i]
    &&& k == a.len() || a[k] < b[k]
}

proof fn lemma_decided(a: Seq<u8>, b: Seq<u8>) -> (k: int)
    requires
        bytes_before(a, b),
    ensures
        decided_at(a, b, k),
    decreases a.len(),
{
    if a.len() == 0 || a[0] < b[0] {
        0
    } else {
        let k = lemma_decided(a.drop_first(), b.drop_first());
        assert forall|i: int| 0 <= i < k + 1 implies #[trigger] a[i] == b[i] by {
            if i > 0 {
                assert(a.drop_first()[i - 1] == b.drop_first()[i - 1]);
            }
        }
        k + 1
    }
}

proof fn lemma_before(a: Seq<u8>, b: Seq<u8>, k: int)
    requires
        decided_at(a, b, k),
    ensures
        bytes_before(a, b),
    decreases k,
{
    if k > 0 {
        let a1 = a.drop_first();
        let b1 = b.drop_first();
        assert(a[0] == b[0]);
        assert forall|i: int| 0 <= i < k - 1 implies #[trigger] a1[i] == b1[i] by {
            assert(a[i + 1] == b[i + 1]);
        }
        lemma_before(a1, b1, k - 1);
    }
}

/// Texts are ordered by their bytes: what decides is the first byte in which they
/// differ, and a text comes before those that it begins.
pub proof fn law_texts_are_ordered_by_their_bytes(a: Seq<char>, b: Seq<char>)
    ensures
        text_before(a, b) <==> exists|k: int| #[trigger]
            decided_at(encode_utf8(a), encode_utf8(b), k),
{
    let x = encode_utf8(a);
    let y = encode_utf8(b);
    if text_before(a, b) {
        let k = lemma_decided(x, y);
        assert(decided_at(x, y, k));
    }
    if exists|k: int| #[trigger] decided_at(x, y, k) {
        let k = choose|k: int| #[trigger] decided_at(x, y, k);
        lemma_before(x, y, k);
    }
}

/// Lines one after another, each with its newline.
pub open spec fn all_lines(lines: Seq<Seq<char>>) -> Seq<char>
    decreases lines.len(),
{
    if lines.len() == 0 {
        Seq::empty()
    } else {
        all_lines(lines.drop_last()) + lines.last() + seq!['\n']
    }
}

proof fn lemma_all_lines(lines: Seq<Seq<char>>)
    requires
        lines.len() > 0,
    ensures
        all_lines(lines) == joined_by(lines, '\n').push('\n'),
    decreases lines.len(),
{
    if lines.len() == 1 {
        assert(lines.drop_last() =~= Seq::<Seq<char>>::empty());
        assert(all_lines(lines.drop_last()) =~= Seq::<char>::empty());
        assert(all_lines(lines) =~= lines[0].push('\n'));
    } else {
        lemma_all_lines(lines.drop_last());
        assert(all_lines(lines) =~= joined_by(lines, '\n').push('\n'));
    }
}

proof fn lemma_pieces_without(s: Seq<char>, c: char)
    ensures
        forall|i: int| 0 <= i < pieces(s, c).len() ==> !(#[trigger] pieces(s, c)[i]).contains(c),
    decreases s.len(),
{
    if s.len() > 0 {
        let before = pieces(s.drop_last(), c);
        let now = pieces(s, c);
        lemma_pieces_without(s.drop_last(), c);
        lemma_pieces_nonempty(s.drop_last(), c);
        assert forall|i: int| 0 <= i < now.len() implies !(#[trigger] now[i]).contains(c) by {
            if s.last() == c {
                if i < before.len() {
                    assert(now[i] == before[i]);
                }
            } else if i < before.len() - 1 {
                assert(now[i] == before[i]);
            } else {
                let last = before[before.len() - 1];
                assert(now[i] == last.push(s.last()));
                if now[i].contains(c) {
                    let j = choose|j: int| 0 <= j < now[i].len() && now[i][j] == c;
                    if j < last.len() {
                        assert(last[j] == c);
                    }
                }
            }
        }
    }
}

/// The lines of a text make it up again, each with its newline; only the last may
/// lack one, and no line holds one.
pub proof fn law_lines_make_up_the_text(text: Seq<char>)
    ensures
        all_lines(lines_of(text)) == (if text.len() == 0 || text.last() == '\n' {
            text
        } else {
            text + seq!['\n']
        }),
        forall|i: int|
            0 <= i < lines_of(text).len() ==> !(#[trigger] lines_of(text)[i]).contains('\n'),
{
    let parts = pieces(text, '\n');
    lemma_joined_pieces(text, '\n');
    lemma_pieces_without(text, '\n');
    if text.len() == 0 {
    } else if text.last() == '\n' {
        let before = pieces(text.drop_last(), '\n');
        lemma_pieces_nonempty(text.drop_last(), '\n');
        let lines = parts.drop_last();
        assert(lines =~= before);
        lemma_all_lines(lines);
        assert(joined_by(parts, '\n') =~= joined_by(lines, '\n').push('\n'));
        assert forall|i: int| 0 <= i < lines.len() implies !(#[trigger] lines[i]).contains('\n') by {
            assert(lines[i] == parts[i]);
        }
    } else {
        lemma_pieces_nonempty(text, '\n');
        lemma_all_lines(parts);
        assert(text.push('\n') =~= text + seq!['\n']);
    }
}

/// A separator stands between neighbours, and nowhere else.
pub proof fn law_separators_stand_between_neighbours(
    list: Seq<Seq<char>>,
    next: Seq<char>,
    c: char,
)
    ensures
        joined_by(Seq::empty(), c) == Seq::<char>::empty(),
        joined_by(seq![next], c) == next,
        list.len() > 0 ==> joined_by(list.push(next), c) == joined_by(list, c) + seq![c] + next,
{
    assert(list.push(next).drop_last() =~= list);
    if list.len() > 0 {
        assert(joined_by(list.push(next), c) =~= joined_by(list, c) + seq![c] + next);
    }
}

/// A carriage return before a newline belongs to the end of the line; all else
/// stays.
pub proof fn law_carriage_returns_end_lines(text: Seq<char>, i: int)
    requires
        0 <= i < lines_of(text).len(),
    ensures
        text_lines(text).len() == lines_of(text).len(),
        text_lines(text)[i] == lines_of(text)[i] || text_lines(text)[i] + seq!['\r'] == lines_of(
            text,
        )[i],
        text_lines(text)[i] == lines_of(text)[i] <==> (lines_of(text)[i].len() == 0 || lines_of(
            text,
        )[i].last() != '\r' || (i == lines_of(text).len() - 1 && text.last() != '\n')),
{
    let line = lines_of(text)[i];
    if line.len() > 0 && line.last() == '\r' {
        assert(line.drop_last() + seq!['\r'] =~= line);
        assert(line.drop_last().len() != line.len());
    }
}

/// The components of a path are the names between its slashes, in their order.
pub proof fn law_components_are_the_names_on_a_path(path: Seq<char>, name: Seq<char>)
    requires
        name.len() > 0,
        !name.contains('/'),
    ensures
        components(Seq::empty()) == Seq::<Seq<char>>::empty(),
        components(name) == seq![name],
        components(path.push('/')) == components(path),
        components(path.push('/') + name) == components(path).push(name),
{
    let none = Seq::<char>::empty();
    lemma_pieces_single(none, '/');
    lemma_pieces_single(name, '/');
    reveal_with_fuel(nonempty, 2);
    let one = seq![name];
    assert(one.drop_last() =~= Seq::<Seq<char>>::empty());
    assert(components(name) =~= one);
    assert(components(none) =~= Seq::<Seq<char>>::empty());
    lemma_components_concat(path, none);
    lemma_components_concat(path, name);
    assert(path.push('/') + none =~= path.push('/'));
    assert(components(path) + Seq::<Seq<char>>::empty() =~= components(path));
    assert(components(path) + one =~= components(path).push(name));
}

/// A name below a directory follows the directory's path and a slash; below the
/// root it stands alone.
pub proof fn law_names_stand_behind_their_directory(dir: Seq<char>, name: Seq<char>)
    ensures
        dir.len() == 0 ==> path_below(dir, name) == name,
        dir.len() > 0 ==> path_below(dir, name) == dir + seq!['/'] + name,
{
    reveal_strlit("/");
    assert("/"@ =~= seq!['/']);
}

/// A file is binary where one of its first 8192 bytes is zero.
pub proof fn law_a_zero_byte_makes_a_file_binary(data: Seq<u8>)
    ensures
        data.len() <= 8192 ==> binary(data) == data.contains(0),
        data.len() > 8192 ==> binary(data) == data.subrange(0, 8192).contains(0),
{
    if data.len() > 8192 {
        let first = data.subrange(0, 8192);
        if binary(data) {
            let i = choose|i: int| 0 <= i < data.len() && i < 8192 && data[i] == 0;
            assert(first[i] == 0);
        }
        if first.contains(0) {
            let i = choose|i: int| 0 <= i < first.len() && first[i] == 0;
            assert(data[i] == 0);
        }
    } else {
        if data.contains(0) {
            let i = choose|i: int| 0 <= i < data.len() && data[i] == 0;
            assert(data[i] == 0);
        }
    }
}

/// A program is a file that anyone may run; making it one lets everyone run it,
/// and making it none lets nobody.
pub proof fn law_anyone_may_run_a_program(mode: u32)
    ensures
        mode_is_exec(mode) <==> mode & 0o100 != 0 || mode & 0o010 != 0 || mode & 0o001 != 0,
        with_exec(mode, true) & 0o111 == 0o111,
        with_exec(mode, false) & 0o111 == 0,
{
    assert(mode & 0o111 != 0 <==> mode & 0o100 != 0 || mode & 0o010 != 0 || mode & 0o001 != 0)
        by (bit_vector);
    assert((mode | 0o111) & 0o111 == 0o111) by (bit_vector);
    assert((mode & !0o111u32) & 0o111 == 0) by (bit_vector);
}

/// Programs and other files are recorded under the modes that git has for them.
pub proof fn law_modes_are_those_of_git()
    ensures
        file_mode(true) == "100755"@,
        file_mode(false) == "100644"@,
{
}

/// A store is opened where its marker says one, white space aside.
pub proof fn law_only_format_one_is_read(raw: Seq<char>)
    ensures
        format_error(raw) is None <==> trimmed(raw) == seq!['1'],
{
    reveal_strlit("1");
    assert("1"@ =~= seq!['1']);
}

/// `init` tells a new store from one that was there, and where it is.
pub proof fn law_init_tells_a_new_store(dir: Seq<char>)
    ensures
        init_text(true, dir) == "initialized empty snapref store in "@ + dir + "\n"@,
        init_text(false, dir) == "snapref store already initialized in "@ + dir + "\n"@,
{
}

proof fn lemma_flat(s: Seq<char>)
    requires
        forall|i: int| 0 <= i < s.len() ==> !white_space(#[trigger] s[i]),
    ensures
        flattened(s) == s,
        !s.contains(' '),
{
    assert(white_space(' '));
    assert(flattened(s) =~= s);
}

/// The words of a text are what stands between white space, in their order.
pub proof fn law_words_stand_between_white_space(s: Seq<char>, c: char, word: Seq<char>)
    requires
        white_space(c),
        word.len() > 0,
        forall|i: int| 0 <= i < word.len() ==> !white_space(#[trigger] word[i]),
    ensures
        words(word) == seq![word],
        words(s.push(c)) == words(s),
        words(s.push(c) + word) == words(s).push(word),
{
    let flat = flattened(s);
    let none = Seq::<char>::empty();
    let one = seq![word];
    lemma_flat(word);
    lemma_pieces_single(word, ' ');
    lemma_pieces_single(none, ' ');
    reveal_with_fuel(nonempty, 2);
    assert(one.drop_last() =~= Seq::<Seq<char>>::empty());
    assert(nonempty(one) =~= one);
    assert(nonempty(seq![none]) =~= Seq::<Seq<char>>::empty());
    lemma_pieces_concat(flat, none, ' ');
    lemma_pieces_concat(flat, word, ' ');
    assert(flattened(s.push(c)) =~= flat.push(' ') + none);
    assert(flattened(s.push(c) + word) =~= flat.push(' ') + word) by {
        assert(flattened(word) =~= word);
        assert(flattened(s.push(c) + word) =~= flattened(s.push(c)) + flattened(word));
        assert(flattened(s.push(c)) =~= flat.push(' '));
    }
    lemma_nonempty_concat(pieces(flat, ' '), seq![none]);
    lemma_nonempty_concat(pieces(flat, ' '), one);
    assert(words(s) + Seq::<Seq<char>>::empty() =~= words(s));
    assert(words(s) + one =~= words(s).push(word));
}

} // verus!
