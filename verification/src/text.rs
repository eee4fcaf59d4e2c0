//! String primitives. Every contract speaks of a string as its sequence of
//! characters; the code works on the UTF-8 bytes where that is faster.

use vstd::prelude::*;
use vstd::utf8::{
    decode_utf8, encode_scalar, encode_utf8, is_char_boundary, valid_utf8,
};

verus! {

broadcast use {vstd::utf8::encode_utf8_valid_utf8, vstd::utf8::encode_utf8_decode_utf8};

/// `String::push` appends one character.
pub assume_specification[ String::push ](s: &mut String, c: char)
    ensures
        final(s)@ == old(s)@.push(c),
;

/// Encoding distributes over concatenation.
proof fn lemma_encode_concat(a: Seq<char>, b: Seq<char>)
    ensures
        encode_utf8(a + b) == encode_utf8(a) + encode_utf8(b),
    decreases a.len(),
{
    if a.len() == 0 {
        assert(a + b =~= b);
        assert(encode_utf8(a) + encode_utf8(b) =~= encode_utf8(b));
    } else {
        assert((a + b).drop_first() =~= a.drop_first() + b);
        lemma_encode_concat(a.drop_first(), b);
        assert(encode_utf8(a + b) =~= encode_utf8(a) + encode_utf8(b));
    }
}

/// Two character sequences with the same encoding are the same.
pub proof fn lemma_encode_injective(a: Seq<char>, b: Seq<char>)
    requires
        encode_utf8(a) == encode_utf8(b),
    ensures
        a == b,
{
    assert(decode_utf8(encode_utf8(a)) == a);
    assert(decode_utf8(encode_utf8(b)) == b);
}

/// The contents of a list of strings.
pub open spec fn texts(list: Seq<&str>) -> Seq<Seq<char>> {
    list.map_values(|s: &str| s@)
}

/// The contents of a list of owned strings.
pub open spec fn owned_texts(list: Seq<String>) -> Seq<Seq<char>> {
    list.map_values(|s: String| s@)
}

/// String equality.
pub fn same(a: &str, b: &str) -> (r: bool)
    ensures
        r == (a@ == b@),
{
    let x = a.as_bytes();
    let y = b.as_bytes();
    if x.len() != y.len() {
        return false;
    }
    let mut i: usize = 0;
    while i < x.len()
        invariant
            i <= x@.len(),
            x@.len() == y@.len(),
            x@ == encode_utf8(a@),
            y@ == encode_utf8(b@),
            forall|j: int| 0 <= j < i ==> x@[j] == y@[j],
        decreases x@.len() - i,
    {
        if x[i] != y[i] {
            return false;
        }
        i = i + 1;
    }
    proof {
        assert(x@ =~= y@);
        lemma_encode_injective(a@, b@);
    }
    true
}

/// Copy a list of owned strings.
pub fn own_all(list: &Vec<String>) -> (r: Vec<String>)
    ensures
        owned_texts(r@) == owned_texts(list@),
{
    let mut out: Vec<String> = Vec::new();
    let mut i: usize = 0;
    while i < list.len()
        invariant
            i <= list@.len(),
            out@.len() == i,
            forall|j: int| 0 <= j < i ==> (#[trigger] out@[j])@ == list@[j]@,
        decreases list@.len() - i,
    {
        out.push(list[i].clone());
        i = i + 1;
    }
    assert(owned_texts(out@) =~= owned_texts(list@));
    out
}

/// Copy a list of strings.
pub fn own(list: &Vec<&str>) -> (r: Vec<String>)
    ensures
        owned_texts(r@) == texts(list@),
{
    let mut out: Vec<String> = Vec::new();
    let mut i: usize = 0;
    while i < list.len()
        invariant
            i <= list@.len(),
            out@.len() == i,
            forall|j: int| 0 <= j < i ==> (#[trigger] out@[j])@ == list@[j]@,
        decreases list@.len() - i,
    {
        out.push(list[i].to_owned());
        i = i + 1;
    }
    assert(owned_texts(out@) =~= texts(list@));
    out
}

/// The characters of a string.
pub fn chars_of(s: &str) -> (r: Vec<char>)
    ensures
        r@ == s@,
{
    let mut out: Vec<char> = Vec::new();
    for c in it: s.chars()
        invariant
            it.seq() == s@,
            out@ == s@.take(it.index() as int),
    {
        out.push(c);
        assert(out@ =~= s@.take(it.index() + 1));
    }
    assert(s@.take(s@.len() as int) =~= s@);
    out
}

/// The string made of the characters `from..to` of `chars`.
pub fn string_of(chars: &[char], from: usize, to: usize) -> (r: String)
    requires
        from <= to <= chars@.len(),
    ensures
        r@ == chars@.subrange(from as int, to as int),
{
    let mut out = String::new();
    let mut i: usize = from;
    while i < to
        invariant
            from <= i <= to <= chars@.len(),
            out@ == chars@.subrange(from as int, i as int),
        decreases to - i,
    {
        out.push(chars[i]);
        i = i + 1;
        assert(out@ =~= chars@.subrange(from as int, i as int));
    }
    out
}

/// An ASCII character.
pub open spec fn ascii(c: char) -> bool {
    (c as u32) < 128
}

proof fn lemma_encode_ascii(c: char)
    requires
        ascii(c),
    ensures
        encode_utf8(seq![c]) == seq![c as u8],
{
    assert(seq![c].drop_first() =~= Seq::<char>::empty());
    reveal_with_fuel(encode_utf8, 2);
    assert(encode_scalar(c as u32) =~= seq![c as u8]) by {
        let u = c as u32;
        assert(u < 128 ==> (u & 0x7F) as u8 == u as u8) by (bit_vector);
    }
    assert(encode_utf8(seq![c]) =~= seq![c as u8]);
}

/// A string whose encoding starts with an ASCII byte starts with that character.
proof fn lemma_ascii_head(s: Seq<char>, b: u8)
    requires
        encode_utf8(s).len() > 0,
        encode_utf8(s)[0] == b,
        b < 128,
    ensures
        s.len() > 0,
        s[0] == b as char,
{
    vstd::utf8::encode_utf8_first_scalar(s);
    assert(b < 128 ==> b & 0x7F == b) by (bit_vector);
    vstd::utf8::char_u32_cast(s[0], s[0] as u32);
}

/// Where the encoding holds no byte `c`, the string holds no character `c`.
proof fn lemma_no_ascii(s: Seq<char>, c: char)
    requires
        ascii(c),
        !encode_utf8(s).contains(c as u8),
    ensures
        !s.contains(c),
{
    if s.contains(c) {
        let k = s.index_of(c);
        assert(s =~= s.take(k) + (seq![c] + s.skip(k + 1)));
        lemma_encode_concat(s.take(k), seq![c] + s.skip(k + 1));
        lemma_encode_concat(seq![c], s.skip(k + 1));
        lemma_encode_ascii(c);
        assert(encode_utf8(s)[encode_utf8(s.take(k)).len() as int] == c as u8);
    }
}

/// Split a string in two before the byte `i`, which must be ASCII.
fn split_before<'a>(s: &'a str, i: usize) -> (r: (&'a str, &'a str))
    requires
        i < encode_utf8(s@).len(),
        encode_utf8(s@)[i as int] < 128,
    ensures
        s@ == r.0@ + r.1@,
        encode_utf8(r.0@) == encode_utf8(s@).take(i as int),
        encode_utf8(r.1@) == encode_utf8(s@).skip(i as int),
{
    proof {
        vstd::utf8::is_char_boundary_iff_not_is_continuation_byte(encode_utf8(s@), i as int);
    }
    let (left, right) = s.split_at(i);
    proof {
        lemma_encode_concat(left@, right@);
        assert(encode_utf8(left@) + encode_utf8(right@) =~= encode_utf8(s@));
        lemma_encode_injective(left@ + right@, s@);
        assert(encode_utf8(left@) =~= encode_utf8(s@).take(i as int));
        assert(encode_utf8(right@) =~= encode_utf8(s@).skip(i as int));
    }
    (left, right)
}

/// Where `b` first stands in `bytes`; the length where it does not.
fn find_byte(bytes: &[u8], b: u8) -> (r: usize)
    ensures
        r <= bytes@.len(),
        r < bytes@.len() ==> bytes@[r as int] == b,
        forall|j: int| 0 <= j < r ==> bytes@[j] != b,
{
    let mut i: usize = 0;
    while i < bytes.len()
        invariant
            i <= bytes@.len(),
            forall|j: int| 0 <= j < i ==> bytes@[j] != b,
        decreases bytes@.len() - i,
    {
        if bytes[i] == b {
            return i;
        }
        i = i + 1;
    }
    i
}

/// The text before and after the first `c`, or `None` where there is no `c`.
pub fn split_once<'a>(s: &'a str, c: char) -> (r: Option<(&'a str, &'a str)>)
    requires
        ascii(c),
    ensures
        match r {
            Some((left, right)) => s@ == left@.push(c) + right@ && !left@.contains(c),
            None => !s@.contains(c),
        },
{
    let bytes = s.as_bytes();
    let want: u8 = c as u8;
    let i: usize = find_byte(bytes, want);
    if i == bytes.len() {
        proof {
            lemma_no_ascii(s@, c);
        }
        return None;
    }
    let (left, rest) = split_before(s, i);
    proof {
        lemma_ascii_head(rest@, want);
        lemma_no_ascii(left@, c);
    }
    let right = drop_ascii_head(rest);
    assert(left@.push(c) + right@ =~= s@);
    Some((left, right))
}

/// The string without its first character, which must be ASCII.
fn drop_ascii_head<'a>(s: &'a str) -> (r: &'a str)
    requires
        s@.len() > 0,
        ascii(s@[0]),
    ensures
        r@ == s@.drop_first(),
{
    proof {
        assert(s@ =~= seq![s@[0]] + s@.drop_first());
        lemma_encode_concat(seq![s@[0]], s@.drop_first());
        lemma_encode_ascii(s@[0]);
        reveal_with_fuel(is_char_boundary, 2);
        vstd::utf8::encode_utf8_first_scalar(s@);
    }
    let (_, right) = s.split_at(1);
    proof {
        assert(encode_utf8(right@) =~= encode_utf8(s@.drop_first()));
        lemma_encode_injective(right@, s@.drop_first());
    }
    right
}

/// The pieces of `s` between its `c`s: one more than there are `c`s.
pub open spec fn pieces(s: Seq<char>, c: char) -> Seq<Seq<char>>
    decreases s.len(),
{
    if s.len() == 0 {
        seq![Seq::empty()]
    } else {
        let before = pieces(s.drop_last(), c);
        if s.last() == c {
            before.push(Seq::empty())
        } else {
            before.drop_last().push(before.last().push(s.last()))
        }
    }
}

pub proof fn lemma_pieces_nonempty(s: Seq<char>, c: char)
    ensures
        pieces(s, c).len() > 0,
    decreases s.len(),
{
    if s.len() > 0 {
        lemma_pieces_nonempty(s.drop_last(), c);
    }
}

/// A string without a `c` is one piece.
pub proof fn lemma_pieces_single(s: Seq<char>, c: char)
    requires
        !s.contains(c),
    ensures
        pieces(s, c) == seq![s],
    decreases s.len(),
{
    if s.len() == 0 {
        assert(s =~= Seq::empty());
    } else {
        assert forall|i: int| 0 <= i < s.drop_last().len() implies s.drop_last()[i] != c by {
            assert(s[i] != c);
        }
        lemma_pieces_single(s.drop_last(), c);
        assert(s.last() == s[s.len() - 1]);
        assert(s.drop_last().push(s.last()) =~= s);
        assert(pieces(s, c) =~= seq![s]);
    }
}

/// The pieces of two strings joined by a `c` are the pieces of both.
pub proof fn lemma_pieces_concat(a: Seq<char>, b: Seq<char>, c: char)
    ensures
        pieces(a.push(c) + b, c) == pieces(a, c) + pieces(b, c),
    decreases b.len(),
{
    let s = a.push(c) + b;
    if b.len() == 0 {
        assert(s =~= a.push(c));
        assert(s.drop_last() =~= a);
        assert(pieces(s, c) =~= pieces(a, c) + pieces(b, c));
    } else {
        assert(s.drop_last() =~= a.push(c) + b.drop_last());
        lemma_pieces_concat(a, b.drop_last(), c);
        lemma_pieces_nonempty(b.drop_last(), c);
        assert(pieces(s, c) =~= pieces(a, c) + pieces(b, c));
    }
}

/// The pieces, with a `c` between neighbours.
pub open spec fn joined_by(parts: Seq<Seq<char>>, c: char) -> Seq<char>
    decreases parts.len(),
{
    if parts.len() == 0 {
        Seq::empty()
    } else if parts.len() == 1 {
        parts[0]
    } else {
        joined_by(parts.drop_last(), c).push(c) + parts.last()
    }
}

/// Joining the pieces of a string gives the string.
pub proof fn lemma_joined_pieces(s: Seq<char>, c: char)
    ensures
        joined_by(pieces(s, c), c) == s,
    decreases s.len(),
{
    if s.len() == 0 {
        assert(s =~= Seq::empty());
    } else {
        let before = pieces(s.drop_last(), c);
        lemma_joined_pieces(s.drop_last(), c);
        lemma_pieces_nonempty(s.drop_last(), c);
        let now = pieces(s, c);
        assert(s.drop_last().push(s.last()) =~= s);
        if s.last() == c {
            assert(now.drop_last() =~= before);
            assert(joined_by(now, c) =~= s);
        } else {
            assert(now.drop_last() =~= before.drop_last());
            assert(joined_by(now, c) =~= s);
        }
    }
}

/// The pieces of a string.
pub fn split<'a>(s: &'a str, c: char) -> (r: Vec<&'a str>)
    requires
        ascii(c),
    ensures
        texts(r@) == pieces(s@, c),
{
    let mut out: Vec<&'a str> = Vec::new();
    let mut rest: &'a str = s;
    assert(texts(out@) + pieces(rest@, c) =~= pieces(s@, c));
    loop
        invariant
            ascii(c),
            texts(out@) + pieces(rest@, c) == pieces(s@, c),
        decreases rest@.len(),
    {
        match split_once(rest, c) {
            Some((left, right)) => {
                proof {
                    lemma_pieces_single(left@, c);
                    lemma_pieces_concat(left@, right@, c);
                    assert(texts(out@.push(left)) + pieces(right@, c) =~= texts(out@) + pieces(
                        rest@,
                        c,
                    ));
                }
                out.push(left);
                rest = right;
            },
            None => {
                proof {
                    lemma_pieces_single(rest@, c);
                    assert(texts(out@.push(rest)) =~= texts(out@) + seq![rest@]);
                }
                out.push(rest);
                return out;
            },
        }
    }
}

/// The lines of a text. A trailing newline does not create an empty last line.
pub open spec fn lines_of(text: Seq<char>) -> Seq<Seq<char>> {
    if text.len() == 0 {
        Seq::empty()
    } else if text.last() == '\n' {
        pieces(text, '\n').drop_last()
    } else {
        pieces(text, '\n')
    }
}

/// The text ends with a newline.
pub open spec fn ends_with_newline(text: Seq<char>) -> bool {
    text.len() > 0 && text.last() == '\n'
}

/// The text has no unterminated last line.
pub open spec fn no_open_line(text: Seq<char>) -> bool {
    text.len() == 0 || ends_with_newline(text)
}

/// The last piece is empty exactly where the text ends with the separator.
pub proof fn lemma_last_piece(text: Seq<char>)
    requires
        text.len() > 0,
    ensures
        pieces(text, '\n').last().len() == 0 <==> text.last() == '\n',
{
    lemma_pieces_nonempty(text.drop_last(), '\n');
}

/// The lines of a text, and whether a newline ends it.
pub fn break_lines<'a>(text: &'a str) -> (r: (Vec<&'a str>, bool))
    ensures
        texts(r.0@) == lines_of(text@),
        r.1 == ends_with_newline(text@),
{
    if text.is_empty() {
        let none: Vec<&'a str> = Vec::new();
        assert(texts(none@) =~= lines_of(text@));
        return (none, false);
    }
    let mut lines: Vec<&'a str> = split(text, '\n');
    let ghost all = lines@;
    proof {
        lemma_pieces_nonempty(text@, '\n');
        lemma_last_piece(text@);
    }
    let last = lines[lines.len() - 1];
    assert(last@ == texts(lines@)[lines@.len() - 1]);
    if last.is_empty() {
        lines.pop();
        assert(texts(lines@) =~= texts(all).drop_last());
        (lines, true)
    } else {
        (lines, false)
    }
}

/// The line without a carriage return at its end.
pub open spec fn without_cr(s: Seq<char>) -> Seq<char> {
    if s.len() > 0 && s.last() == '\r' {
        s.drop_last()
    } else {
        s
    }
}

/// The lines of a text where both `\n` and `\r\n` end a line.
pub open spec fn text_lines(text: Seq<char>) -> Seq<Seq<char>> {
    let lines = lines_of(text);
    Seq::new(
        lines.len(),
        |i: int|
            if ends_with_newline(text) || i < lines.len() - 1 {
                without_cr(lines[i])
            } else {
                lines[i]
            },
    )
}

/// Take one carriage return off the end.
fn strip_cr<'a>(s: &'a str) -> (r: &'a str)
    ensures
        r@ == without_cr(s@),
{
    let bytes = s.as_bytes();
    let n: usize = bytes.len();
    proof {
        if s@.len() > 0 {
            let c = s@.last();
            assert(s@ =~= s@.drop_last() + seq![c]);
            lemma_encode_concat(s@.drop_last(), seq![c]);
            if c == '\r' {
                lemma_encode_ascii(c);
                assert(bytes@.last() == 13);
            }
        }
    }
    if n > 0 && bytes[n - 1] == 13 {
        let (left, right) = split_before(s, n - 1);
        proof {
            lemma_ascii_head(right@, 13);
            assert(right@[0] == '\r');
            assert(encode_utf8(right@).len() == 1);
            assert(right@ =~= seq!['\r'] + right@.drop_first());
            lemma_encode_concat(seq!['\r'], right@.drop_first());
            lemma_encode_ascii('\r');
            let rest = right@.drop_first();
            if rest.len() > 0 {
                vstd::utf8::encode_utf8_first_scalar(rest);
                assert(encode_utf8(rest).len() > 0);
            }
            assert(right@ =~= seq!['\r']);
            assert(left@ =~= s@.drop_last());
        }
        left
    } else {
        s
    }
}

/// The lines of a text where both `\n` and `\r\n` end a line; a last line
/// without a newline counts as well.
pub fn lines<'a>(text: &'a str) -> (r: Vec<&'a str>)
    ensures
        texts(r@) == text_lines(text@),
{
    let (raw, ended) = break_lines(text);
    let mut out: Vec<&'a str> = Vec::new();
    let mut i: usize = 0;
    while i < raw.len()
        invariant
            i <= raw@.len(),
            out@.len() == i,
            texts(raw@) == lines_of(text@),
            ended == ends_with_newline(text@),
            forall|j: int| 0 <= j < i ==> (#[trigger] out@[j])@ == text_lines(text@)[j],
        decreases raw@.len() - i,
    {
        assert(raw@[i as int]@ == lines_of(text@)[i as int]);
        if ended || i < raw.len() - 1 {
            out.push(strip_cr(raw[i]));
        } else {
            out.push(raw[i]);
        }
        i = i + 1;
    }
    assert(texts(out@) =~= text_lines(text@));
    out
}

/// The pieces that are not empty.
pub open spec fn nonempty(parts: Seq<Seq<char>>) -> Seq<Seq<char>>
    decreases parts.len(),
{
    if parts.len() == 0 {
        Seq::empty()
    } else if parts.last().len() == 0 {
        nonempty(parts.drop_last())
    } else {
        nonempty(parts.drop_last()).push(parts.last())
    }
}

/// The components of a `/`-separated path; empty ones do not count.
pub open spec fn components(path: Seq<char>) -> Seq<Seq<char>> {
    nonempty(pieces(path, '/'))
}

/// Split a path into its components.
pub fn split_path<'a>(path: &'a str) -> (r: Vec<&'a str>)
    ensures
        texts(r@) == components(path@),
{
    let parts = split(path, '/');
    let mut out: Vec<&'a str> = Vec::new();
    let mut i: usize = 0;
    assert(texts(parts@).take(0) =~= Seq::<Seq<char>>::empty());
    assert(texts(out@) =~= Seq::<Seq<char>>::empty());
    while i < parts.len()
        invariant
            i <= parts@.len(),
            texts(parts@) == pieces(path@, '/'),
            texts(out@) == nonempty(texts(parts@).take(i as int)),
        decreases parts@.len() - i,
    {
        let part = parts[i];
        let ghost seen = texts(parts@).take(i + 1);
        assert(seen.drop_last() =~= texts(parts@).take(i as int));
        assert(seen.last() == part@);
        if !part.is_empty() {
            let ghost before = out@;
            out.push(part);
            assert(texts(out@) =~= texts(before).push(part@));
        }
        i = i + 1;
    }
    assert(texts(parts@).take(parts@.len() as int) =~= texts(parts@));
    out
}

/// Unicode's `White_Space` property.
pub open spec fn white_space(c: char) -> bool {
    ||| '\u{9}' <= c <= '\u{d}'
    ||| c == ' '
    ||| c == '\u{85}'
    ||| c == '\u{a0}'
    ||| c == '\u{1680}'
    ||| '\u{2000}' <= c <= '\u{200a}'
    ||| c == '\u{2028}'
    ||| c == '\u{2029}'
    ||| c == '\u{202f}'
    ||| c == '\u{205f}'
    ||| c == '\u{3000}'
}

/// Whether a character is white space.
pub fn is_white_space(c: char) -> (r: bool)
    ensures
        r == white_space(c),
{
    ('\u{9}' <= c && c <= '\u{d}') || c == ' ' || c == '\u{85}' || c == '\u{a0}' || c == '\u{1680}'
        || ('\u{2000}' <= c && c <= '\u{200a}') || c == '\u{2028}' || c == '\u{2029}' || c
        == '\u{202f}' || c == '\u{205f}' || c == '\u{3000}'
}

/// The text without leading white space.
pub open spec fn trimmed_start(s: Seq<char>) -> Seq<char>
    decreases s.len(),
{
    if s.len() > 0 && white_space(s[0]) {
        trimmed_start(s.drop_first())
    } else {
        s
    }
}

/// The text without trailing white space.
pub open spec fn trimmed_end(s: Seq<char>) -> Seq<char>
    decreases s.len(),
{
    if s.len() > 0 && white_space(s.last()) {
        trimmed_end(s.drop_last())
    } else {
        s
    }
}

/// The text without white space at either end.
pub open spec fn trimmed(s: Seq<char>) -> Seq<char> {
    trimmed_end(trimmed_start(s))
}

/// Take the white space off both ends of `chars`.
pub fn trim_chars(chars: &Vec<char>) -> (r: String)
    ensures
        r@ == trimmed(chars@),
{
    let mut from: usize = 0;
    let n: usize = chars.len();
    assert(chars@.subrange(0, n as int) =~= chars@);
    while from < n && is_white_space(chars[from])
        invariant
            from <= n,
            n == chars@.len(),
            trimmed_start(chars@) == trimmed_start(chars@.subrange(from as int, n as int)),
        decreases n - from,
    {
        assert(chars@.subrange(from as int, n as int).drop_first() =~= chars@.subrange(
            from + 1,
            n as int,
        ));
        from = from + 1;
    }
    let mut to: usize = n;
    while to > from && is_white_space(chars[to - 1])
        invariant
            from <= to <= n,
            n == chars@.len(),
            trimmed(chars@) == trimmed_end(chars@.subrange(from as int, to as int)),
        decreases to,
    {
        assert(chars@.subrange(from as int, to as int).drop_last() =~= chars@.subrange(
            from as int,
            to - 1,
        ));
        to = to - 1;
    }
    string_of(chars.as_slice(), from, to)
}

/// Take the white space off both ends.
pub fn trim(s: &str) -> (r: String)
    ensures
        r@ == trimmed(s@),
{
    let chars = chars_of(s);
    trim_chars(&chars)
}

pub proof fn lemma_nonempty_concat(a: Seq<Seq<char>>, b: Seq<Seq<char>>)
    ensures
        nonempty(a + b) == nonempty(a) + nonempty(b),
    decreases b.len(),
{
    if b.len() == 0 {
        assert(a + b =~= a);
        assert(nonempty(a) + nonempty(b) =~= nonempty(a));
    } else {
        assert((a + b).drop_last() =~= a + b.drop_last());
        lemma_nonempty_concat(a, b.drop_last());
        assert(nonempty(a + b) =~= nonempty(a) + nonempty(b));
    }
}

/// The components of two paths joined by a slash are those of both.
pub proof fn lemma_components_concat(a: Seq<char>, b: Seq<char>)
    ensures
        components(a.push('/') + b) == components(a) + components(b),
{
    lemma_pieces_concat(a, b, '/');
    lemma_nonempty_concat(pieces(a, '/'), pieces(b, '/'));
}

/// Where `x` first stands in `s`; the length where it does not.
pub open spec fn first_index<A>(s: Seq<A>, x: A) -> int
    decreases s.len(),
{
    if s.len() == 0 || s[0] == x {
        0
    } else {
        1 + first_index(s.drop_first(), x)
    }
}

pub proof fn lemma_first_index<A>(s: Seq<A>, x: A, i: int)
    requires
        0 <= i <= s.len(),
        forall|j: int| 0 <= j < i ==> s[j] != x,
        i < s.len() ==> s[i] == x,
    ensures
        first_index(s, x) == i,
    decreases s.len(),
{
    if i > 0 {
        let t = s.drop_first();
        assert forall|j: int| 0 <= j < i - 1 implies t[j] != x by {
            assert(s[j + 1] != x);
        }
        lemma_first_index(t, x, i - 1);
    }
}

/// The text before the first `c`.
pub open spec fn before_first(s: Seq<char>, c: char) -> Seq<char> {
    s.take(first_index(s, c))
}

/// The text after the first `c`.
pub open spec fn after_first(s: Seq<char>, c: char) -> Seq<char> {
    s.skip(first_index(s, c) + 1)
}

pub proof fn lemma_split_first(s: Seq<char>, c: char, left: Seq<char>, right: Seq<char>)
    requires
        s == left.push(c) + right,
        !left.contains(c),
    ensures
        s.contains(c),
        before_first(s, c) == left,
        after_first(s, c) == right,
{
    let i = left.len() as int;
    assert(s[i] == c);
    assert forall|j: int| 0 <= j < i implies s[j] != c by {
        assert(left[j] == s[j]);
        assert(left.contains(left[j]));
    }
    lemma_first_index(s, c, i);
    assert(s.take(i) =~= left);
    assert(s.skip(i + 1) =~= right);
}

/// One more line at the end of a text without an open line.
pub proof fn lemma_lines_push(text: Seq<char>, line: Seq<char>)
    requires
        no_open_line(text),
        !line.contains('\n'),
    ensures
        lines_of(text + line.push('\n')) == lines_of(text).push(line),
        no_open_line(text + line.push('\n')),
{
    let none = Seq::<char>::empty();
    let tail = line.push('\n');
    let whole = text + tail;
    assert(tail + none =~= tail);
    lemma_pieces_concat(line, none, '\n');
    lemma_pieces_single(line, '\n');
    assert(pieces(tail, '\n') =~= seq![line, none]);
    if text.len() == 0 {
        assert(whole =~= tail);
        assert(pieces(whole, '\n').drop_last() =~= lines_of(text).push(line));
    } else {
        let start = text.drop_last();
        assert(text =~= start.push('\n'));
        assert(start.push('\n') + none =~= text);
        lemma_pieces_concat(start, none, '\n');
        lemma_pieces_concat(start, tail, '\n');
        assert(lines_of(text) =~= pieces(start, '\n'));
        assert(pieces(whole, '\n').drop_last() =~= lines_of(text).push(line));
    }
}

/// A prefix of a valid encoding that is itself an encoding ends at a character.
proof fn lemma_prefix_boundary(bytes: Seq<u8>, p: Seq<char>)
    requires
        valid_utf8(bytes),
        encode_utf8(p).len() <= bytes.len(),
        bytes.take(encode_utf8(p).len() as int) == encode_utf8(p),
    ensures
        is_char_boundary(bytes, encode_utf8(p).len() as int),
    decreases p.len(),
{
    if p.len() > 0 {
        let e = encode_utf8(p);
        vstd::utf8::encode_utf8_first_scalar(p);
        assert(e[0] == bytes[0]) by {
            assert(bytes.take(e.len() as int)[0] == bytes[0]);
        }
        let w = vstd::utf8::length_of_first_scalar(bytes);
        let rest = vstd::utf8::pop_first_scalar(bytes);
        let tail = encode_utf8(p.drop_first());
        assert(e.len() == w + tail.len());
        assert(rest.take(tail.len() as int) =~= tail) by {
            assert forall|i: int| 0 <= i < tail.len() implies rest[i] == tail[i] by {
                assert(bytes.take(e.len() as int)[w + i] == bytes[w + i]);
                assert(e[w + i] == tail[i]);
            }
        }
        lemma_prefix_boundary(rest, p.drop_first());
    }
}

/// The text after `prefix`, or `None` where `s` does not start with it.
pub fn strip_prefix<'a>(s: &'a str, prefix: &str) -> (r: Option<&'a str>)
    ensures
        match r {
            Some(t) => s@ == prefix@ + t@,
            None => !prefix@.is_prefix_of(s@),
        },
{
    let x = s.as_bytes();
    let y = prefix.as_bytes();
    proof {
        if prefix@.is_prefix_of(s@) {
            assert(s@ =~= prefix@ + s@.skip(prefix@.len() as int));
            lemma_encode_concat(prefix@, s@.skip(prefix@.len() as int));
            assert(forall|j: int| 0 <= j < y@.len() ==> x@[j] == y@[j]);
        }
    }
    if x.len() < y.len() {
        return None;
    }
    let mut i: usize = 0;
    while i < y.len()
        invariant
            i <= y@.len() <= x@.len(),
            prefix@.is_prefix_of(s@) ==> forall|j: int| 0 <= j < y@.len() ==> x@[j] == y@[j],
            forall|j: int| 0 <= j < i ==> x@[j] == y@[j],
        decreases y@.len() - i,
    {
        if x[i] != y[i] {
            return None;
        }
        i = i + 1;
    }
    proof {
        assert(x@.take(y@.len() as int) =~= y@);
        lemma_prefix_boundary(x@, prefix@);
    }
    let (_, rest) = s.split_at(y.len());
    proof {
        lemma_encode_concat(prefix@, rest@);
        assert(encode_utf8(prefix@) + encode_utf8(rest@) =~= encode_utf8(s@));
        lemma_encode_injective(prefix@ + rest@, s@);
    }
    Some(rest)
}

/// `std::str::from_utf8`: the string that the bytes encode, where they are
/// valid UTF-8; nothing otherwise.
#[verifier::external_body]
pub(crate) fn utf8_str(bytes: &[u8]) -> (r: Option<&str>)
    ensures
        match r {
            Some(s) => valid_utf8(bytes@) && s@ == decode_utf8(bytes@),
            None => !valid_utf8(bytes@),
        },
{
    std::str::from_utf8(bytes).ok()
}

/// The text that `String::from_utf8_lossy` makes of bytes.
pub uninterp spec fn lossy_text(bytes: Seq<u8>) -> Seq<char>;

/// `String::from_utf8_lossy`: the string that the bytes encode where they are
/// valid UTF-8. Otherwise invalid sequences are replaced by U+FFFD; which
/// bytes make one such sequence is left to the name `lossy_text`.
#[verifier::external_body]
pub(crate) fn utf8_lossy(bytes: &[u8]) -> (r: String)
    ensures
        r@ == lossy_text(bytes@),
        valid_utf8(bytes@) ==> r@ == decode_utf8(bytes@),
{
    String::from_utf8_lossy(bytes).into_owned()
}

/// White space turned into spaces.
pub open spec fn flattened(s: Seq<char>) -> Seq<char> {
    s.map_values(
        |c: char|
            if white_space(c) {
                ' '
            } else {
                c
            },
    )
}

/// The words of a text: what stands between white space.
pub open spec fn words(s: Seq<char>) -> Seq<Seq<char>> {
    nonempty(pieces(flattened(s), ' '))
}

/// Split a text into its words.
pub fn split_words(s: &str) -> (r: Vec<String>)
    ensures
        owned_texts(r@) == words(s@),
{
    let chars = chars_of(s);
    let mut flat = String::new();
    let mut i: usize = 0;
    while i < chars.len()
        invariant
            i <= chars@.len(),
            chars@ == s@,
            flat@ == flattened(s@).take(i as int),
        decreases chars@.len() - i,
    {
        if is_white_space(chars[i]) {
            flat.push(' ');
        } else {
            flat.push(chars[i]);
        }
        i = i + 1;
        assert(flat@ =~= flattened(s@).take(i as int));
    }
    assert(flat@ =~= flattened(s@));
    let parts = split(flat.as_str(), ' ');
    let mut out: Vec<String> = Vec::new();
    let mut k: usize = 0;
    assert(texts(parts@).take(0) =~= Seq::<Seq<char>>::empty());
    assert(owned_texts(out@) =~= Seq::<Seq<char>>::empty());
    while k < parts.len()
        invariant
            k <= parts@.len(),
            texts(parts@) == pieces(flattened(s@), ' '),
            owned_texts(out@) == nonempty(texts(parts@).take(k as int)),
        decreases parts@.len() - k,
    {
        let part = parts[k];
        let ghost seen = texts(parts@).take(k + 1);
        assert(seen.drop_last() =~= texts(parts@).take(k as int));
        assert(seen.last() == part@);
        if !part.is_empty() {
            let ghost before = out@;
            let word = part.to_owned();
            out.push(word);
            assert(owned_texts(out@) =~= owned_texts(before).push(part@));
        }
        k = k + 1;
    }
    assert(texts(parts@).take(parts@.len() as int) =~= texts(parts@));
    out
}

} // verus!
