//! Content-addressed object model: blobs, trees and snapshot records.
//!
//! Every object is stored as `<kind> <payload-len>\0<payload>`, where the id
//! is the SHA-1 of the whole encoded object. Blobs therefore share their ids
//! with git blobs. Trees and snapshots use a line-oriented text payload.

use vstd::hash_map::StringHashMap;
use vstd::prelude::*;
use vstd::slice::slice_subrange;
use vstd::utf8::{decode_utf8, encode_utf8, valid_utf8};

use crate::decimal::{
    decimal, i64_value, is_digit, law_numeral_reads_back, law_signed_numeral_reads_back, numeral,
    parse_i64, parse_u64, parse_usize, signed_decimal, signed_numeral, u64_value, usize_value,
};
use crate::sha1::{hex, lemma_digest_len, lemma_hex_of, sha1, sha1_hex};
use crate::text::{
    after_first, before_first, break_lines, chars_of, first_index, flattened, lemma_first_index,
    lemma_lines_push, lemma_nonempty_concat, lemma_pieces_concat, lemma_pieces_single,
    lemma_split_first, lines_of, no_open_line, nonempty, owned_texts, pieces, same, split_once,
    split_words, strip_prefix, texts, trim_chars, trimmed, trimmed_end, trimmed_start, utf8_str,
    white_space, words,
};

verus! {

broadcast use {vstd::utf8::encode_utf8_valid_utf8, vstd::utf8::encode_utf8_decode_utf8};

/// The mode of a plain file.
pub const MODE_FILE: &'static str = "100644";

/// The mode of an executable file.
pub const MODE_EXEC: &'static str = "100755";

/// The mode of a directory.
pub const MODE_DIR: &'static str = "040000";

/// The three object kinds in the shadow store.
#[derive(Debug, Clone, Copy, PartialEq, Eq, Structural)]
pub enum Kind {
    Blob,
    Tree,
    Snapshot,
}

/// The name of a kind in an object's header.
pub open spec fn tag_of(kind: Kind) -> Seq<char> {
    match kind {
        Kind::Blob => "blob"@,
        Kind::Tree => "tree"@,
        Kind::Snapshot => "snapshot"@,
    }
}

/// The kind that a header names, if any.
pub open spec fn kind_of(tag: Seq<char>) -> Option<Kind> {
    if tag == "blob"@ {
        Some(Kind::Blob)
    } else if tag == "tree"@ {
        Some(Kind::Tree)
    } else if tag == "snapshot"@ {
        Some(Kind::Snapshot)
    } else {
        None
    }
}

impl Kind {
    /// The name of the kind in an object's header.
    pub fn tag(self) -> (r: &'static str)
        ensures
            r@ == tag_of(self),
    {
        match self {
            Kind::Blob => "blob",
            Kind::Tree => "tree",
            Kind::Snapshot => "snapshot",
        }
    }

    /// The kind that a header names.
    pub fn from_tag(tag: &str) -> (r: Option<Kind>)
        ensures
            r == kind_of(tag@),
    {
        if same(tag, "blob") {
            Some(Kind::Blob)
        } else if same(tag, "tree") {
            Some(Kind::Tree)
        } else if same(tag, "snapshot") {
            Some(Kind::Snapshot)
        } else {
            None
        }
    }
}

/// The header of an object, without its NUL.
pub open spec fn header(kind: Kind, len: nat) -> Seq<char> {
    tag_of(kind) + " "@ + numeral(len)
}

/// An encoded object: header, NUL, payload.
pub open spec fn encoded(kind: Kind, payload: Seq<u8>) -> Seq<u8> {
    encode_utf8(header(kind, payload.len())).push(0) + payload
}

/// The id of an object.
pub open spec fn object_id(kind: Kind, payload: Seq<u8>) -> Seq<char> {
    sha1_hex(encoded(kind, payload))
}

/// A hexadecimal digit.
pub open spec fn is_hex(c: char) -> bool {
    '0' <= c <= '9' || 'a' <= c <= 'f' || 'A' <= c <= 'F'
}

/// Forty hexadecimal digits.
pub open spec fn well_formed_id(id: Seq<char>) -> bool {
    id.len() == 40 && forall|i: int| 0 <= i < id.len() ==> is_hex(#[trigger] id[i])
}

/// What an encoded object holds, or what is wrong with it.
pub open spec fn decoded(id: Seq<char>, data: Seq<u8>) -> Result<(Kind, Seq<u8>), Seq<char>> {
    let nul = first_index(data, 0u8);
    let head = decode_utf8(data.take(nul));
    let payload = data.skip(nul + 1);
    if nul == data.len() {
        Err("object "@ + id + " has no header terminator"@)
    } else if !valid_utf8(data.take(nul)) {
        Err("object "@ + id + " has a non-UTF-8 header"@)
    } else if !head.contains(' ') {
        Err("object "@ + id + " has a malformed header"@)
    } else if kind_of(before_first(head, ' ')) is None {
        Err("object "@ + id + " has unknown kind '"@ + before_first(head, ' ') + "'"@)
    } else if usize_value(after_first(head, ' ')) is None {
        Err("object "@ + id + " has a malformed length"@)
    } else if usize_value(after_first(head, ' '))->0 != payload.len() {
        Err(
            "object "@ + id + " declares "@ + numeral(
                usize_value(after_first(head, ' '))->0 as nat,
            ) + " bytes but has "@ + numeral(payload.len()),
        )
    } else {
        Ok((kind_of(before_first(head, ' '))->0, payload))
    }
}

fn encode(kind: Kind, payload: &[u8]) -> (buf: Vec<u8>)
    ensures
        buf@ == encoded(kind, payload@),
{
    let mut head = String::new();
    head.append(kind.tag());
    head.append(" ");
    let len = decimal(payload.len() as u64);
    head.append(len.as_str());
    assert(head@ =~= header(kind, payload@.len()));
    let mut buf: Vec<u8> = Vec::new();
    buf.extend_from_slice(head.as_str().as_bytes());
    buf.push(0);
    buf.extend_from_slice(payload);
    assert(buf@ =~= encoded(kind, payload@));
    buf
}

/// Compute the id an object would get, without writing it.
pub fn id_of(kind: Kind, payload: &[u8]) -> (r: String)
    ensures
        r@ == object_id(kind, payload@),
{
    let buf = encode(kind, payload);
    hex(buf.as_slice())
}

/// Whether a string can be an object id.
pub fn valid_id(id: &str) -> (r: bool)
    ensures
        r == well_formed_id(id@),
{
    let chars = crate::text::chars_of(id);
    if chars.len() != 40 {
        return false;
    }
    let mut i: usize = 0;
    while i < 40
        invariant
            i <= 40,
            chars@.len() == 40,
            chars@ == id@,
            forall|j: int| 0 <= j < i ==> is_hex(#[trigger] id@[j]),
        decreases 40 - i,
    {
        let c: char = chars[i];
        if !(('0' <= c && c <= '9') || ('a' <= c && c <= 'f') || ('A' <= c && c <= 'F')) {
            assert(!is_hex(id@[i as int]));
            return false;
        }
        i = i + 1;
    }
    true
}

/// `"object {id}{what}"`
fn object_error(id: &str, what: &str) -> (r: String)
    ensures
        r@ == "object "@ + id@ + what@,
{
    let mut s = "object ".to_string();
    s.append(id);
    s.append(what);
    s
}

/// Parse `<kind> <len>\0<payload>`, validating the declared length.
pub fn parse_encoded(id: &str, data: &[u8]) -> (r: Result<(Kind, Vec<u8>), String>)
    ensures
        match r {
            Ok((kind, payload)) => decoded(id@, data@) == Ok::<(Kind, Seq<u8>), Seq<char>>(
                (kind, payload@),
            ),
            Err(e) => decoded(id@, data@) == Err::<(Kind, Seq<u8>), Seq<char>>(e@),
        },
{
    let mut nul: usize = 0;
    while nul < data.len() && data[nul] != 0
        invariant
            nul <= data@.len(),
            forall|j: int| 0 <= j < nul ==> data@[j] != 0,
        decreases data@.len() - nul,
    {
        nul = nul + 1;
    }
    proof {
        lemma_first_index(data@, 0u8, nul as int);
    }
    if nul == data.len() {
        return Err(object_error(id, " has no header terminator"));
    }
    let head_bytes = slice_subrange(data, 0, nul);
    assert(head_bytes@ =~= data@.take(nul as int));
    let head = match utf8_str(head_bytes) {
        Some(h) => h,
        None => {
            return Err(object_error(id, " has a non-UTF-8 header"));
        },
    };
    let (tag, len_str) = match split_once(head, ' ') {
        Some(pair) => pair,
        None => {
            return Err(object_error(id, " has a malformed header"));
        },
    };
    proof {
        lemma_split_first(head@, ' ', tag@, len_str@);
    }
    let kind = match Kind::from_tag(tag) {
        Some(k) => k,
        None => {
            let mut e = object_error(id, " has unknown kind '");
            e.append(tag);
            e.append("'");
            return Err(e);
        },
    };
    let len: usize = match parse_usize(len_str) {
        Some(n) => n,
        None => {
            return Err(object_error(id, " has a malformed length"));
        },
    };
    let payload = slice_subrange(data, nul + 1, data.len());
    assert(payload@ =~= data@.skip(nul + 1));
    if payload.len() != len {
        let mut e = object_error(id, " declares ");
        let declared = decimal(len as u64);
        e.append(declared.as_str());
        e.append(" bytes but has ");
        let found = decimal(payload.len() as u64);
        e.append(found.as_str());
        return Err(e);
    }
    let mut out: Vec<u8> = Vec::new();
    out.extend_from_slice(payload);
    assert(out@ =~= payload@);
    Ok((kind, out))
}

/// Every object's id is a well-formed id.
pub proof fn law_object_ids_are_well_formed(kind: Kind, payload: Seq<u8>)
    ensures
        well_formed_id(object_id(kind, payload)),
{
    lemma_digest_len(encoded(kind, payload));
    lemma_hex_of(sha1(encoded(kind, payload)));
}

/// A header is ASCII text without a NUL.
proof fn lemma_header_bytes(kind: Kind, len: nat)
    ensures
        forall|i: int|
            0 <= i < encode_utf8(header(kind, len)).len() ==> #[trigger] encode_utf8(
                header(kind, len),
            )[i] != 0,
        kind_of(tag_of(kind)) == Some(kind),
        !tag_of(kind).contains(' '),
        header(kind, len) == tag_of(kind).push(' ') + numeral(len),
{
    reveal_strlit("blob");
    reveal_strlit("tree");
    reveal_strlit("snapshot");
    reveal_strlit(" ");
    let h = header(kind, len);
    law_numeral_reads_back(len);
    assert(h =~= tag_of(kind).push(' ') + numeral(len));
    assert forall|i: int| 0 <= i < h.len() implies 0 < (#[trigger] h[i]) as u32 && (h[i] as u32)
        < 128 by {
        let t = tag_of(kind).len() as int;
        if i > t {
            assert(h[i] == numeral(len)[i - t - 1]);
            assert(is_digit(numeral(len)[i - t - 1]));
        }
    }
    assert(vstd::utf8::is_ascii_chars(h));
    vstd::utf8::is_ascii_chars_encode_utf8(h);
    assert("blob"@ != "tree"@) by {
        assert("blob"@[0] != "tree"@[0]);
    }
    assert("blob"@ != "snapshot"@) by {
        assert("blob"@[0] != "snapshot"@[0]);
    }
    assert("tree"@ != "snapshot"@) by {
        assert("tree"@[0] != "snapshot"@[0]);
    }
}

/// Decoding an encoded object gives back its kind and payload.
pub proof fn law_encoded_object_reads_back(id: Seq<char>, kind: Kind, payload: Seq<u8>)
    requires
        payload.len() <= usize::MAX,
    ensures
        decoded(id, encoded(kind, payload)) == Ok::<(Kind, Seq<u8>), Seq<char>>((kind, payload)),
{
    let data = encoded(kind, payload);
    let h = header(kind, payload.len());
    let bytes = encode_utf8(h);
    let n = bytes.len() as int;
    lemma_header_bytes(kind, payload.len());
    assert forall|j: int| 0 <= j < n implies data[j] != 0 by {
        assert(data[j] == bytes[j]);
    }
    assert(data[n] == 0);
    lemma_first_index(data, 0u8, n);
    assert(data.take(n) =~= bytes);
    assert(data.skip(n + 1) =~= payload);
    lemma_split_first(h, ' ', tag_of(kind), numeral(payload.len()));
    law_numeral_reads_back(payload.len());
}

/// The table of stored objects: encoded bytes by id. It also keeps the ids of
/// the objects added since it was made, in order, for whoever has to persist
/// them.
pub struct Objects {
    table: StringHashMap<Vec<u8>>,
    added: Vec<String>,
}

impl View for Objects {
    type V = Map<Seq<char>, Seq<u8>>;

    closed spec fn view(&self) -> Map<Seq<char>, Seq<u8>> {
        self.table@.map_values(|v: Vec<u8>| v@)
    }
}

/// The table after an object was stored: one with its id stays as it is.
pub open spec fn stored(
    objects: Map<Seq<char>, Seq<u8>>,
    kind: Kind,
    payload: Seq<u8>,
) -> Map<Seq<char>, Seq<u8>> {
    let id = object_id(kind, payload);
    if objects.contains_key(id) {
        objects
    } else {
        objects.insert(id, encoded(kind, payload))
    }
}

/// What reading the object `id` gives, or why it fails.
pub open spec fn fetched(objects: Map<Seq<char>, Seq<u8>>, id: Seq<char>) -> Result<
    (Kind, Seq<u8>),
    Seq<char>,
> {
    if !well_formed_id(id) {
        Err("malformed object id: "@ + id)
    } else if !objects.contains_key(id) {
        Err("missing object "@ + id)
    } else {
        decoded(id, objects[id])
    }
}

impl Objects {
    /// The ids of the objects added since the table was made.
    pub closed spec fn added_ids(&self) -> Seq<Seq<char>> {
        crate::text::owned_texts(self.added@)
    }

    /// The table has all that `before` had, and the objects that are new since
    /// then are the ones it has counted as added since then.
    pub open spec fn extends(&self, before: Objects) -> bool {
        let known = before.added_ids().len();
        &&& before@.submap_of(self@)
        &&& before.added_ids().is_prefix_of(self.added_ids())
        &&& forall|id: Seq<char>| #[trigger]
            self@.contains_key(id) && !before@.contains_key(id) ==> self.added_ids().skip(
                known as int,
            ).contains(id)
        &&& forall|i: int|
            known <= i < self.added_ids().len() ==> self@.contains_key(
                #[trigger] self.added_ids()[i],
            ) && !before@.contains_key(self.added_ids()[i])
    }

    /// An empty table.
    pub fn new() -> (r: Objects)
        ensures
            r@ == Map::<Seq<char>, Seq<u8>>::empty(),
            r.added_ids() == Seq::<Seq<char>>::empty(),
    {
        let r = Objects { table: StringHashMap::new(), added: Vec::new() };
        assert(r@ =~= Map::<Seq<char>, Seq<u8>>::empty());
        assert(r.added_ids() =~= Seq::<Seq<char>>::empty());
        r
    }

    /// Put bytes under an id, as they are; they do not count as added.
    pub fn load(&mut self, id: String, data: Vec<u8>)
        ensures
            final(self)@ == old(self)@.insert(id@, data@),
            final(self).added_ids() == old(self).added_ids(),
    {
        self.table.insert(id, data);
        assert(self@ =~= old(self)@.insert(id@, data@));
    }

    /// How many objects there are.
    pub fn count(&self) -> (r: usize)
        ensures
            r == self@.len(),
    {
        assert(self@.dom() =~= self.table@.dom());
        self.table.len()
    }

    /// The bytes stored under an id.
    pub fn get(&self, id: &str) -> (r: Option<&Vec<u8>>)
        ensures
            match r {
                Some(data) => self@.contains_key(id@) && data@ == self@[id@],
                None => !self@.contains_key(id@),
            },
    {
        self.table.get(id)
    }

    /// The ids of the objects added since the table was made.
    pub fn added(&self) -> (r: &Vec<String>)
        ensures
            crate::text::owned_texts(r@) == self.added_ids(),
    {
        &self.added
    }

    /// Put bytes under an id that is not there yet.
    fn insert_new(&mut self, id: &String, data: Vec<u8>)
        ensures
            final(self)@ == old(self)@.insert(id@, data@),
            final(self).added_ids() == old(self).added_ids().push(id@),
    {
        self.table.insert(id.clone(), data);
        self.added.push(id.clone());
        assert(self@ =~= old(self)@.insert(id@, data@));
        assert(self.added_ids() =~= old(self).added_ids().push(id@));
    }
}

/// Write an object, deduplicating on content. Returns its id.
pub fn write(objects: &mut Objects, kind: Kind, payload: &[u8]) -> (id: String)
    ensures
        id@ == object_id(kind, payload@),
        final(objects)@ == stored(old(objects)@, kind, payload@),
        final(objects).added_ids() == (if old(objects)@.contains_key(id@) {
            old(objects).added_ids()
        } else {
            old(objects).added_ids().push(id@)
        }),
        final(objects).extends(*old(objects)),
{
    let buf = encode(kind, payload);
    let id = hex(buf.as_slice());
    if objects.get(id.as_str()).is_none() {
        objects.insert_new(&id, buf);
        proof {
            let known = old(objects).added_ids();
            let now = objects.added_ids();
            assert(now.skip(known.len() as int)[0] == id@);
            assert(known =~= now.subrange(0, known.len() as int));
        }
    } else {
        let ghost known = old(objects).added_ids();
        assert(known =~= known.subrange(0, known.len() as int));
    }
    id
}

/// What extends an extension extends what came before.
pub(crate) proof fn lemma_extends(a: Objects, b: Objects, c: Objects)
    requires
        b.extends(a),
        c.extends(b),
    ensures
        c.extends(a),
{
    let x = a.added_ids();
    let y = b.added_ids();
    let z = c.added_ids();
    assert(forall|i: int| 0 <= i < x.len() ==> x[i] == y[i]) by {
        assert(x =~= y.subrange(0, x.len() as int));
    }
    assert(forall|i: int| 0 <= i < y.len() ==> y[i] == z[i]) by {
        assert(y =~= z.subrange(0, y.len() as int));
    }
    assert(x =~= z.subrange(0, x.len() as int));
    assert forall|id: Seq<char>| #[trigger]
        c@.contains_key(id) && !a@.contains_key(id) implies z.skip(x.len() as int).contains(id) by {
        if b@.contains_key(id) {
            let i = choose|i: int|
                0 <= i < y.skip(x.len() as int).len() && y.skip(x.len() as int)[i] == id;
            assert(z.skip(x.len() as int)[i] == id);
        } else {
            let i = choose|i: int|
                0 <= i < z.skip(y.len() as int).len() && z.skip(y.len() as int)[i] == id;
            assert(z.skip(x.len() as int)[i + y.len() - x.len()] == id);
        }
    }
    assert forall|i: int| x.len() <= i < z.len() implies c@.contains_key(#[trigger] z[i])
        && !a@.contains_key(z[i]) by {
        if i < y.len() {
            assert(z[i] == y[i]);
        }
    }
    assert forall|id: Seq<char>| #[trigger] a@.dom().contains(id) implies c@.dom().contains(id)
        && a@[id] == c@[id] by {
        assert(b@.dom().contains(id));
    }
}

/// A table extends itself.
pub(crate) proof fn lemma_extends_itself(a: Objects)
    ensures
        a.extends(a),
{
    let x = a.added_ids();
    assert(x =~= x.subrange(0, x.len() as int));
}

/// Read and header-validate an object. (Full rehash lives in `verify`.)
pub fn read(objects: &Objects, id: &str) -> (r: Result<(Kind, Vec<u8>), String>)
    ensures
        match r {
            Ok((kind, payload)) => fetched(objects@, id@) == Ok::<(Kind, Seq<u8>), Seq<char>>(
                (kind, payload@),
            ),
            Err(e) => fetched(objects@, id@) == Err::<(Kind, Seq<u8>), Seq<char>>(e@),
        },
{
    if !valid_id(id) {
        let mut e = "malformed object id: ".to_string();
        e.append(id);
        return Err(e);
    }
    match objects.get(id) {
        None => {
            let mut e = "missing object ".to_string();
            e.append(id);
            Err(e)
        },
        Some(data) => parse_encoded(id, data.as_slice()),
    }
}

/// An object that was written reads back. The one thing that can stand in the
/// way is other bytes that were stored under the same id before.
pub proof fn law_written_object_reads_back(
    objects: Map<Seq<char>, Seq<u8>>,
    kind: Kind,
    payload: Seq<u8>,
)
    requires
        payload.len() <= usize::MAX,
        objects.contains_key(object_id(kind, payload)) ==> objects[object_id(kind, payload)]
            == encoded(kind, payload),
    ensures
        fetched(stored(objects, kind, payload), object_id(kind, payload)) == Ok::<
            (Kind, Seq<u8>),
            Seq<char>,
        >((kind, payload)),
{
    law_object_ids_are_well_formed(kind, payload);
    law_encoded_object_reads_back(object_id(kind, payload), kind, payload);
}

/// Writing the same content twice stores one object.
pub proof fn law_writing_twice_stores_once(
    objects: Map<Seq<char>, Seq<u8>>,
    kind: Kind,
    payload: Seq<u8>,
)
    ensures
        stored(stored(objects, kind, payload), kind, payload) == stored(objects, kind, payload),
{
}

/// Writing an object leaves every other object as it was.
pub proof fn law_writing_keeps_other_objects(
    objects: Map<Seq<char>, Seq<u8>>,
    kind: Kind,
    payload: Seq<u8>,
    id: Seq<char>,
)
    requires
        objects.contains_key(id),
    ensures
        stored(objects, kind, payload).contains_key(id),
        stored(objects, kind, payload)[id] == objects[id],
        fetched(stored(objects, kind, payload), id) == fetched(objects, id),
{
}

/// What a tree entry says.
pub struct TreeEntryView {
    pub mode: Seq<char>,
    pub id: Seq<char>,
    pub name: Seq<char>,
}

/// One entry of a tree object.
#[derive(Debug)]
pub struct TreeEntry {
    pub mode: String,
    pub id: String,
    pub name: String,
}

impl View for TreeEntry {
    type V = TreeEntryView;

    open spec fn view(&self) -> TreeEntryView {
        TreeEntryView { mode: self.mode@, id: self.id@, name: self.name@ }
    }
}

impl Clone for TreeEntry {
    fn clone(&self) -> (r: Self)
        ensures
            r@ == self@,
    {
        TreeEntry { mode: self.mode.clone(), id: self.id.clone(), name: self.name.clone() }
    }
}

impl PartialEq for TreeEntry {
    fn eq(&self, other: &Self) -> (r: bool) {
        same(self.mode.as_str(), other.mode.as_str()) && same(self.id.as_str(), other.id.as_str())
            && same(self.name.as_str(), other.name.as_str())
    }
}

impl vstd::std_specs::cmp::PartialEqSpecImpl for TreeEntry {
    open spec fn obeys_eq_spec() -> bool {
        true
    }

    open spec fn eq_spec(&self, other: &Self) -> bool {
        self.mode@ == other.mode@ && self.id@ == other.id@ && self.name@ == other.name@
    }
}

impl Eq for TreeEntry {

}

impl TreeEntryView {
    /// The entry is a directory.
    pub open spec fn is_dir(self) -> bool {
        self.mode == MODE_DIR@
    }

    /// The entry is an executable file.
    pub open spec fn is_exec(self) -> bool {
        self.mode == MODE_EXEC@
    }
}

impl TreeEntry {
    /// Whether the entry is a directory.
    pub fn is_dir(&self) -> (r: bool)
        ensures
            r == self@.is_dir(),
    {
        same(self.mode.as_str(), MODE_DIR)
    }

    /// Whether the entry is an executable file.
    pub fn is_exec(&self) -> (r: bool)
        ensures
            r == self@.is_exec(),
    {
        same(self.mode.as_str(), MODE_EXEC)
    }
}

/// The contents of a list of tree entries.
pub open spec fn entry_views(list: Seq<TreeEntry>) -> Seq<TreeEntryView> {
    list.map_values(|e: TreeEntry| e@)
}

/// The line of a tree entry, without its newline.
pub open spec fn entry_line(e: TreeEntryView) -> Seq<char> {
    e.mode.push(' ') + e.id.push(' ') + e.name
}

/// The text of a tree: one line per entry.
pub open spec fn tree_text(entries: Seq<TreeEntryView>) -> Seq<char>
    decreases entries.len(),
{
    if entries.len() == 0 {
        Seq::empty()
    } else {
        tree_text(entries.drop_last()) + entry_line(entries.last()).push('\n')
    }
}

/// The entry that a line of a tree stands for, if any: a mode, a well-formed
/// id and a non-empty name, with single spaces between them.
pub open spec fn parsed_entry(line: Seq<char>) -> Option<TreeEntryView> {
    let rest = after_first(line, ' ');
    if !line.contains(' ') || !rest.contains(' ') {
        None
    } else {
        let e = TreeEntryView {
            mode: before_first(line, ' '),
            id: before_first(rest, ' '),
            name: after_first(rest, ' '),
        };
        if well_formed_id(e.id) && e.name.len() > 0 {
            Some(e)
        } else {
            None
        }
    }
}

/// The entries that the lines of a tree stand for; the first line that stands
/// for none is the error.
pub open spec fn parsed_entries(lines: Seq<Seq<char>>) -> Result<Seq<TreeEntryView>, Seq<char>>
    decreases lines.len(),
{
    if lines.len() == 0 {
        Ok(Seq::empty())
    } else {
        match parsed_entries(lines.drop_last()) {
            Err(e) => Err(e),
            Ok(before) => match parsed_entry(lines.last()) {
                Some(e) => Ok(before.push(e)),
                None => Err("malformed tree entry: "@ + lines.last()),
            },
        }
    }
}

/// The entries of a tree's payload, or what is wrong with it.
pub open spec fn parsed_tree(payload: Seq<u8>) -> Result<Seq<TreeEntryView>, Seq<char>> {
    if valid_utf8(payload) {
        parsed_entries(lines_of(decode_utf8(payload)))
    } else {
        Err("tree payload is not UTF-8"@)
    }
}

/// Encode tree entries (already sorted by name) as `<mode> <id> <name>\n`.
pub fn encode_tree(entries: &[TreeEntry]) -> (r: Vec<u8>)
    ensures
        r@ == encode_utf8(tree_text(entry_views(entries@))),
{
    let mut text = String::new();
    let mut i: usize = 0;
    assert(entry_views(entries@).take(0) =~= Seq::<TreeEntryView>::empty());
    while i < entries.len()
        invariant
            i <= entries@.len(),
            text@ == tree_text(entry_views(entries@).take(i as int)),
        decreases entries@.len() - i,
    {
        let e = &entries[i];
        let ghost before = text@;
        text.append(e.mode.as_str());
        text.push(' ');
        text.append(e.id.as_str());
        text.push(' ');
        text.append(e.name.as_str());
        text.push('\n');
        proof {
            let seen = entry_views(entries@).take(i + 1);
            assert(seen.drop_last() =~= entry_views(entries@).take(i as int));
            assert(seen.last() == e@);
            assert(text@ =~= before + entry_line(e@).push('\n'));
        }
        i = i + 1;
    }
    assert(entry_views(entries@).take(entries@.len() as int) =~= entry_views(entries@));
    let mut out: Vec<u8> = Vec::new();
    out.extend_from_slice(text.as_str().as_bytes());
    assert(out@ =~= encode_utf8(text@));
    out
}

fn parse_entry(line: &str) -> (r: Option<TreeEntry>)
    ensures
        match r {
            Some(e) => parsed_entry(line@) == Some(e@),
            None => parsed_entry(line@) is None,
        },
{
    match split_once(line, ' ') {
        None => None,
        Some((mode, rest)) => {
            proof {
                lemma_split_first(line@, ' ', mode@, rest@);
            }
            match split_once(rest, ' ') {
                None => None,
                Some((id, name)) => {
                    proof {
                        lemma_split_first(rest@, ' ', id@, name@);
                    }
                    if !valid_id(id) || name.is_empty() {
                        None
                    } else {
                        Some(
                            TreeEntry {
                                mode: mode.to_owned(),
                                id: id.to_owned(),
                                name: name.to_owned(),
                            },
                        )
                    }
                },
            }
        },
    }
}

proof fn lemma_entries_error(lines: Seq<Seq<char>>, i: int)
    requires
        0 <= i <= lines.len(),
        parsed_entries(lines.take(i)) is Err,
    ensures
        parsed_entries(lines) == parsed_entries(lines.take(i)),
    decreases lines.len() - i,
{
    if i < lines.len() {
        assert(lines.take(i + 1).drop_last() =~= lines.take(i));
        lemma_entries_error(lines, i + 1);
    } else {
        assert(lines.take(i) =~= lines);
    }
}

/// Parse a tree payload back into entries.
pub fn parse_tree(payload: &[u8]) -> (r: Result<Vec<TreeEntry>, String>)
    ensures
        match r {
            Ok(entries) => parsed_tree(payload@) == Ok::<Seq<TreeEntryView>, Seq<char>>(
                entry_views(entries@),
            ),
            Err(e) => parsed_tree(payload@) == Err::<Seq<TreeEntryView>, Seq<char>>(e@),
        },
{
    let text = match utf8_str(payload) {
        Some(t) => t,
        None => {
            return Err("tree payload is not UTF-8".to_string());
        },
    };
    let (all, _) = break_lines(text);
    let ghost views = lines_of(text@);
    let mut entries: Vec<TreeEntry> = Vec::new();
    let mut i: usize = 0;
    assert(views.take(0) =~= Seq::<Seq<char>>::empty());
    assert(entry_views(entries@) =~= Seq::<TreeEntryView>::empty());
    while i < all.len()
        invariant
            i <= all@.len(),
            texts(all@) == views,
            valid_utf8(payload@),
            views == lines_of(decode_utf8(payload@)),
            parsed_entries(views.take(i as int)) == Ok::<Seq<TreeEntryView>, Seq<char>>(
                entry_views(entries@),
            ),
        decreases all@.len() - i,
    {
        let line = all[i];
        assert(views.take(i + 1).drop_last() =~= views.take(i as int));
        assert(views.take(i + 1).last() == line@);
        match parse_entry(line) {
            Some(e) => {
                let ghost before = entries@;
                entries.push(e);
                assert(entry_views(entries@) =~= entry_views(before).push(e@));
            },
            None => {
                proof {
                    lemma_entries_error(views, i + 1);
                }
                let mut e = "malformed tree entry: ".to_string();
                e.append(line);
                return Err(e);
            },
        }
        i = i + 1;
    }
    assert(views.take(all@.len() as int) =~= views);
    Ok(entries)
}

/// An entry that survives being written as a line: the mode has no space, the
/// name is not empty, and neither has a newline.
pub open spec fn writable_entry(e: TreeEntryView) -> bool {
    &&& !e.mode.contains(' ')
    &&& !e.mode.contains('\n')
    &&& well_formed_id(e.id)
    &&& e.name.len() > 0
    &&& !e.name.contains('\n')
}

proof fn lemma_id_chars(id: Seq<char>)
    requires
        well_formed_id(id),
    ensures
        !id.contains(' '),
        !id.contains('\n'),
{
    assert forall|c: char| id.contains(c) implies is_hex(c) by {
        let i = choose|i: int| 0 <= i < id.len() && id[i] == c;
        assert(is_hex(id[i]));
    }
}

proof fn lemma_entry_line(e: TreeEntryView)
    requires
        writable_entry(e),
    ensures
        parsed_entry(entry_line(e)) == Some(e),
        !entry_line(e).contains('\n'),
{
    let line = entry_line(e);
    let rest = e.id.push(' ') + e.name;
    lemma_id_chars(e.id);
    assert(line =~= e.mode.push(' ') + rest);
    lemma_split_first(line, ' ', e.mode, rest);
    lemma_split_first(rest, ' ', e.id, e.name);
    let m = e.mode.len() as int;
    assert forall|i: int| 0 <= i < line.len() implies line[i] != '\n' by {
        if i < m {
            assert(e.mode.contains(e.mode[i]));
        } else if m < i < m + 1 + 40 {
            assert(line[i] == e.id[i - m - 1]);
            assert(e.id.contains(e.id[i - m - 1]));
        } else if i > m + 41 {
            assert(line[i] == e.name[i - m - 42]);
            assert(e.name.contains(e.name[i - m - 42]));
        }
    }
}

proof fn lemma_tree_lines(entries: Seq<TreeEntryView>)
    requires
        forall|i: int| 0 <= i < entries.len() ==> writable_entry(#[trigger] entries[i]),
    ensures
        no_open_line(tree_text(entries)),
        parsed_entries(lines_of(tree_text(entries))) == Ok::<Seq<TreeEntryView>, Seq<char>>(
            entries,
        ),
    decreases entries.len(),
{
    if entries.len() == 0 {
        assert(lines_of(tree_text(entries)) =~= Seq::<Seq<char>>::empty());
        assert(entries =~= Seq::<TreeEntryView>::empty());
    } else {
        let before = entries.drop_last();
        let e = entries.last();
        assert(writable_entry(entries[entries.len() - 1]));
        assert forall|i: int| 0 <= i < before.len() implies writable_entry(#[trigger] before[i]) by {
            assert(before[i] == entries[i]);
        }
        lemma_tree_lines(before);
        lemma_entry_line(e);
        lemma_lines_push(tree_text(before), entry_line(e));
        let all = lines_of(tree_text(entries));
        assert(all == lines_of(tree_text(before)).push(entry_line(e)));
        assert(all.drop_last() =~= lines_of(tree_text(before)));
        assert(before.push(e) =~= entries);
    }
}

/// Parsing an encoded tree gives back its entries.
pub proof fn law_encoded_tree_reads_back(entries: Seq<TreeEntryView>)
    requires
        forall|i: int| 0 <= i < entries.len() ==> writable_entry(#[trigger] entries[i]),
    ensures
        parsed_tree(encode_utf8(tree_text(entries))) == Ok::<Seq<TreeEntryView>, Seq<char>>(
            entries,
        ),
{
    lemma_tree_lines(entries);
}

/// Per-snapshot change statistics, computed against the parent at snap time.
#[derive(Debug, Clone, Copy, PartialEq, Eq, Structural)]
pub struct Stats {
    pub files_added: u64,
    pub files_modified: u64,
    pub files_deleted: u64,
    pub lines_added: u64,
    pub lines_removed: u64,
}

/// Nothing changed.
pub open spec fn no_changes() -> Stats {
    Stats {
        files_added: 0,
        files_modified: 0,
        files_deleted: 0,
        lines_added: 0,
        lines_removed: 0,
    }
}

impl Default for Stats {
    fn default() -> (r: Self)
        ensures
            r == no_changes(),
    {
        Stats {
            files_added: 0,
            files_modified: 0,
            files_deleted: 0,
            lines_added: 0,
            lines_removed: 0,
        }
    }
}

impl Stats {
    /// Whether nothing changed.
    pub fn is_empty(&self) -> (r: bool)
        ensures
            r == (*self == no_changes()),
    {
        self.files_added == 0 && self.files_modified == 0 && self.files_deleted == 0
            && self.lines_added == 0 && self.lines_removed == 0
    }
}

/// What a snapshot record says.
pub struct SnapshotView {
    pub id: Seq<char>,
    pub tree: Seq<char>,
    pub parent: Option<Seq<char>>,
    pub turn: u64,
    pub time: i64,
    pub stats: Stats,
    pub agent: Seq<char>,
    pub label: Seq<char>,
}

/// A snapshot record: one agent turn's working-tree state plus metadata.
#[derive(Debug)]
pub struct Snapshot {
    pub id: String,
    pub tree: String,
    pub parent: Option<String>,
    pub turn: u64,
    pub time: i64,
    pub stats: Stats,
    pub agent: String,
    pub label: String,
}

/// The contents of an optional string.
pub open spec fn option_text(s: Option<String>) -> Option<Seq<char>> {
    match s {
        Some(t) => Some(t@),
        None => None,
    }
}

impl View for Snapshot {
    type V = SnapshotView;

    open spec fn view(&self) -> SnapshotView {
        SnapshotView {
            id: self.id@,
            tree: self.tree@,
            parent: option_text(self.parent),
            turn: self.turn,
            time: self.time,
            stats: self.stats,
            agent: self.agent@,
            label: self.label@,
        }
    }
}

impl Clone for Snapshot {
    fn clone(&self) -> (r: Self)
        ensures
            r@ == self@,
    {
        let parent = match &self.parent {
            Some(p) => Some(p.clone()),
            None => None,
        };
        Snapshot {
            id: self.id.clone(),
            tree: self.tree.clone(),
            parent,
            turn: self.turn,
            time: self.time,
            stats: self.stats,
            agent: self.agent.clone(),
            label: self.label.clone(),
        }
    }
}

/// Newlines and carriage returns turned into spaces.
pub open spec fn unbroken(s: Seq<char>) -> Seq<char> {
    s.map_values(
        |c: char|
            if c == '\n' || c == '\r' {
                ' '
            } else {
                c
            },
    )
}

/// Free text as it is recorded: on one line, without white space at its ends.
pub open spec fn cleaned(s: Seq<char>) -> Seq<char> {
    trimmed(unbroken(s))
}

/// Strip newlines from free-text metadata so the record stays line-oriented.
pub fn clean_text(s: &str) -> (r: String)
    ensures
        r@ == cleaned(s@),
{
    let chars = chars_of(s);
    let mut flat: Vec<char> = Vec::new();
    let mut i: usize = 0;
    while i < chars.len()
        invariant
            i <= chars@.len(),
            chars@ == s@,
            flat@ == unbroken(s@).take(i as int),
        decreases chars@.len() - i,
    {
        if chars[i] == '\n' || chars[i] == '\r' {
            flat.push(' ');
        } else {
            flat.push(chars[i]);
        }
        i = i + 1;
        assert(flat@ =~= unbroken(s@).take(i as int));
    }
    assert(flat@ =~= unbroken(s@));
    trim_chars(&flat)
}

/// The five numbers of the statistics, with single spaces between them.
pub open spec fn stats_text(s: Stats) -> Seq<char> {
    numeral(s.files_added as nat) + " "@ + numeral(s.files_modified as nat) + " "@ + numeral(
        s.files_deleted as nat,
    ) + " "@ + numeral(s.lines_added as nat) + " "@ + numeral(s.lines_removed as nat)
}

/// How a snapshot's parent is written.
pub open spec fn parent_text(parent: Option<Seq<char>>) -> Seq<char> {
    match parent {
        Some(p) => p,
        None => "-"@,
    }
}

/// The text of a snapshot record. Its id is not part of it.
pub open spec fn snapshot_text(s: SnapshotView) -> Seq<char> {
    ("tree "@ + s.tree).push('\n') + ("parent "@ + parent_text(s.parent)).push('\n') + ("turn "@
        + numeral(s.turn as nat)).push('\n') + ("time "@ + signed_numeral(s.time as int)).push('\n')
        + ("stats "@ + stats_text(s.stats)).push('\n') + ("agent "@ + s.agent).push('\n') + (
    "label "@ + s.label).push('\n')
}

fn push_line(out: &mut String, prefix: &str, text: &str)
    ensures
        final(out)@ == old(out)@ + (prefix@ + text@).push('\n'),
{
    out.append(prefix);
    out.append(text);
    out.push('\n');
    assert(out@ =~= old(out)@ + (prefix@ + text@).push('\n'));
}

fn stats_line(s: &Stats) -> (r: String)
    ensures
        r@ == stats_text(*s),
{
    let mut out = decimal(s.files_added);
    out.append(" ");
    let n = decimal(s.files_modified);
    out.append(n.as_str());
    out.append(" ");
    let n = decimal(s.files_deleted);
    out.append(n.as_str());
    out.append(" ");
    let n = decimal(s.lines_added);
    out.append(n.as_str());
    out.append(" ");
    let n = decimal(s.lines_removed);
    out.append(n.as_str());
    out
}

/// Encode a snapshot's payload (the `id` field is ignored).
pub fn encode_snapshot(s: &Snapshot) -> (r: Vec<u8>)
    ensures
        r@ == encode_utf8(snapshot_text(s@)),
{
    let mut out = String::new();
    push_line(&mut out, "tree ", s.tree.as_str());
    match &s.parent {
        Some(p) => push_line(&mut out, "parent ", p.as_str()),
        None => push_line(&mut out, "parent ", "-"),
    }
    let n = decimal(s.turn);
    push_line(&mut out, "turn ", n.as_str());
    let n = signed_decimal(s.time);
    push_line(&mut out, "time ", n.as_str());
    let n = stats_line(&s.stats);
    push_line(&mut out, "stats ", n.as_str());
    push_line(&mut out, "agent ", s.agent.as_str());
    push_line(&mut out, "label ", s.label.as_str());
    assert(out@ =~= snapshot_text(s@));
    let mut bytes: Vec<u8> = Vec::new();
    bytes.extend_from_slice(out.as_str().as_bytes());
    assert(bytes@ =~= encode_utf8(out@));
    bytes
}

/// The value of line `i`, where it starts with `prefix`.
pub open spec fn field_at(lines: Seq<Seq<char>>, i: int, prefix: Seq<char>) -> Option<Seq<char>> {
    if i < lines.len() && prefix.is_prefix_of(lines[i]) {
        Some(lines[i].skip(prefix.len() as int))
    } else {
        None
    }
}

/// The message for a field that is not there.
pub open spec fn missing_field(id: Seq<char>, name: Seq<char>) -> Seq<char> {
    "snapshot "@ + id + " is missing the '"@ + name + "' field"@
}

/// The statistics that a text stands for: five numbers.
pub open spec fn parsed_stats(text: Seq<char>) -> Option<Stats> {
    let w = words(text);
    if w.len() == 5 && u64_value(w[0]) is Some && u64_value(w[1]) is Some && u64_value(
        w[2],
    ) is Some && u64_value(w[3]) is Some && u64_value(w[4]) is Some {
        Some(
            Stats {
                files_added: u64_value(w[0])->0,
                files_modified: u64_value(w[1])->0,
                files_deleted: u64_value(w[2])->0,
                lines_added: u64_value(w[3])->0,
                lines_removed: u64_value(w[4])->0,
            },
        )
    } else {
        None
    }
}

/// The record that the lines of a snapshot stand for, or the first thing that
/// is wrong with them.
pub open spec fn parsed_record(id: Seq<char>, lines: Seq<Seq<char>>) -> Result<
    SnapshotView,
    Seq<char>,
> {
    let tree = field_at(lines, 0, "tree "@);
    let parent = field_at(lines, 1, "parent "@);
    let turn = field_at(lines, 2, "turn "@);
    let time = field_at(lines, 3, "time "@);
    let stats = field_at(lines, 4, "stats "@);
    let agent = field_at(lines, 5, "agent "@);
    let label = field_at(lines, 6, "label "@);
    if tree is None {
        Err(missing_field(id, "tree"@))
    } else if parent is None {
        Err(missing_field(id, "parent"@))
    } else if turn is None {
        Err(missing_field(id, "turn"@))
    } else if u64_value(turn->0) is None {
        Err("snapshot "@ + id + " has a malformed turn"@)
    } else if time is None {
        Err(missing_field(id, "time"@))
    } else if i64_value(time->0) is None {
        Err("snapshot "@ + id + " has a malformed time"@)
    } else if stats is None {
        Err(missing_field(id, "stats"@))
    } else if parsed_stats(stats->0) is None {
        Err("snapshot "@ + id + " has malformed stats"@)
    } else if agent is None {
        Err(missing_field(id, "agent"@))
    } else if label is None {
        Err(missing_field(id, "label"@))
    } else if !well_formed_id(tree->0) || (parent->0 != "-"@ && !well_formed_id(parent->0)) {
        Err("snapshot "@ + id + " references a malformed object id"@)
    } else {
        Ok(
            SnapshotView {
                id,
                tree: tree->0,
                parent: if parent->0 == "-"@ {
                    None
                } else {
                    Some(parent->0)
                },
                turn: u64_value(turn->0)->0,
                time: i64_value(time->0)->0,
                stats: parsed_stats(stats->0)->0,
                agent: agent->0,
                label: label->0,
            },
        )
    }
}

/// The record of a snapshot's payload, or what is wrong with it.
pub open spec fn parsed_snapshot(id: Seq<char>, payload: Seq<u8>) -> Result<
    SnapshotView,
    Seq<char>,
> {
    if valid_utf8(payload) {
        parsed_record(id, lines_of(decode_utf8(payload)))
    } else {
        Err("snapshot "@ + id + " payload is not UTF-8"@)
    }
}

/// `"snapshot {id}{what}"`
fn snapshot_error(id: &str, what: &str) -> (r: String)
    ensures
        r@ == "snapshot "@ + id@ + what@,
{
    let mut s = "snapshot ".to_string();
    s.append(id);
    s.append(what);
    s
}

/// The value of line `i`, or the message for a missing `name`.
fn field<'a>(lines: &Vec<&'a str>, i: usize, prefix: &str, id: &str, name: &str) -> (r: Result<
    &'a str,
    String,
>)
    ensures
        match r {
            Ok(v) => field_at(texts(lines@), i as int, prefix@) == Some(v@),
            Err(e) => field_at(texts(lines@), i as int, prefix@) is None && e@ == missing_field(
                id@,
                name@,
            ),
        },
{
    if i < lines.len() {
        match strip_prefix(lines[i], prefix) {
            Some(v) => {
                proof {
                    let line = lines@[i as int]@;
                    assert(prefix@.is_prefix_of(line)) by {
                        assert(prefix@ =~= line.subrange(0, prefix@.len() as int));
                    }
                    assert(line.skip(prefix@.len() as int) =~= v@);
                }
                return Ok(v);
            },
            None => {},
        }
    }
    let mut e = snapshot_error(id, " is missing the '");
    e.append(name);
    e.append("' field");
    Err(e)
}

fn parse_stats(text: &str) -> (r: Option<Stats>)
    ensures
        r == parsed_stats(text@),
{
    let w = split_words(text);
    assert(owned_texts(w@).len() == w@.len());
    if w.len() != 5 {
        return None;
    }
    match (
        parse_u64(w[0].as_str()),
        parse_u64(w[1].as_str()),
        parse_u64(w[2].as_str()),
        parse_u64(w[3].as_str()),
        parse_u64(w[4].as_str()),
    ) {
        (
            Some(files_added),
            Some(files_modified),
            Some(files_deleted),
            Some(lines_added),
            Some(lines_removed),
        ) => Some(
            Stats { files_added, files_modified, files_deleted, lines_added, lines_removed },
        ),
        _ => None,
    }
}

/// Parse a snapshot payload; `id` is attached to the result.
pub fn parse_snapshot(id: &str, payload: &[u8]) -> (r: Result<Snapshot, String>)
    ensures
        match r {
            Ok(s) => parsed_snapshot(id@, payload@) == Ok::<SnapshotView, Seq<char>>(s@),
            Err(e) => parsed_snapshot(id@, payload@) == Err::<SnapshotView, Seq<char>>(e@),
        },
{
    let text = match utf8_str(payload) {
        Some(t) => t,
        None => {
            return Err(snapshot_error(id, " payload is not UTF-8"));
        },
    };
    let (all, _) = break_lines(text);
    let tree = field(&all, 0, "tree ", id, "tree")?;
    let parent = field(&all, 1, "parent ", id, "parent")?;
    let turn: u64 = match parse_u64(field(&all, 2, "turn ", id, "turn")?) {
        Some(n) => n,
        None => {
            return Err(snapshot_error(id, " has a malformed turn"));
        },
    };
    let time: i64 = match parse_i64(field(&all, 3, "time ", id, "time")?) {
        Some(n) => n,
        None => {
            return Err(snapshot_error(id, " has a malformed time"));
        },
    };
    let stats: Stats = match parse_stats(field(&all, 4, "stats ", id, "stats")?) {
        Some(s) => s,
        None => {
            return Err(snapshot_error(id, " has malformed stats"));
        },
    };
    let agent = field(&all, 5, "agent ", id, "agent")?;
    let label = field(&all, 6, "label ", id, "label")?;
    let root: bool = same(parent, "-");
    if !valid_id(tree) || (!root && !valid_id(parent)) {
        return Err(snapshot_error(id, " references a malformed object id"));
    }
    let parent = if root {
        None
    } else {
        Some(parent.to_owned())
    };
    Ok(
        Snapshot {
            id: id.to_owned(),
            tree: tree.to_owned(),
            parent,
            turn,
            time,
            stats,
            agent: agent.to_owned(),
            label: label.to_owned(),
        },
    )
}

proof fn lemma_trimmed_start(s: Seq<char>)
    ensures
        trimmed_start(s).len() <= s.len(),
        trimmed_start(s) == s.skip(s.len() - trimmed_start(s).len()),
        trimmed_start(s).len() > 0 ==> !white_space(trimmed_start(s)[0]),
    decreases s.len(),
{
    if s.len() > 0 && white_space(s[0]) {
        lemma_trimmed_start(s.drop_first());
        let n = s.len() - trimmed_start(s).len();
        assert(s.drop_first().skip(n - 1) =~= s.skip(n));
    } else {
        assert(s.skip(0) =~= s);
    }
}

proof fn lemma_trimmed_end(s: Seq<char>)
    ensures
        trimmed_end(s).len() <= s.len(),
        trimmed_end(s) == s.take(trimmed_end(s).len() as int),
        trimmed_end(s).len() > 0 ==> !white_space(trimmed_end(s).last()),
    decreases s.len(),
{
    if s.len() > 0 && white_space(s.last()) {
        lemma_trimmed_end(s.drop_last());
        let n = trimmed_end(s).len() as int;
        assert(s.drop_last().take(n) =~= s.take(n));
    } else {
        assert(s.take(s.len() as int) =~= s);
    }
}

/// Trimmed text is a part of the text, without white space at either end.
proof fn lemma_trimmed(s: Seq<char>)
    ensures
        forall|c: char| trimmed(s).contains(c) ==> s.contains(c),
        trimmed(trimmed(s)) == trimmed(s),
{
    let a = trimmed_start(s);
    let b = trimmed(s);
    lemma_trimmed_start(s);
    lemma_trimmed_end(a);
    assert forall|c: char| b.contains(c) implies s.contains(c) by {
        let i = choose|i: int| 0 <= i < b.len() && b[i] == c;
        assert(a[i] == c);
        assert(s[s.len() - a.len() + i] == c);
    }
    if b.len() > 0 {
        assert(b[0] == a[0]);
    }
}

/// Recorded text has no line breaks, and cleaning it again changes nothing.
pub proof fn law_cleaned_text_is_one_line(s: Seq<char>)
    ensures
        !cleaned(s).contains('\n'),
        !cleaned(s).contains('\r'),
        cleaned(cleaned(s)) == cleaned(s),
{
    let flat = unbroken(s);
    lemma_trimmed(flat);
    assert forall|i: int| 0 <= i < flat.len() implies flat[i] != '\n' && flat[i] != '\r' by {}
    assert(!flat.contains('\n') && !flat.contains('\r'));
    assert(unbroken(cleaned(s)) =~= cleaned(s)) by {
        assert forall|i: int| 0 <= i < cleaned(s).len() implies cleaned(s)[i] != '\n' && cleaned(
            s,
        )[i] != '\r' by {
            assert(cleaned(s).contains(cleaned(s)[i]));
        }
    }
}

/// Text that survives being written as the value of a line.
pub open spec fn writable_text(s: Seq<char>) -> bool {
    !s.contains('\n')
}

/// A record that survives being written.
pub open spec fn writable_snapshot(s: SnapshotView) -> bool {
    &&& well_formed_id(s.tree)
    &&& s.parent matches Some(p) ==> well_formed_id(p)
    &&& writable_text(s.agent)
    &&& writable_text(s.label)
}

proof fn lemma_field_line(text: Seq<char>, prefix: Seq<char>, v: Seq<char>)
    requires
        no_open_line(text),
        writable_text(prefix),
        prefix.len() > 0,
        writable_text(v),
    ensures
        no_open_line(text + (prefix + v).push('\n')),
        lines_of(text + (prefix + v).push('\n')) == lines_of(text).push(prefix + v),
        prefix.is_prefix_of(prefix + v),
        (prefix + v).skip(prefix.len() as int) == v,
{
    let line = prefix + v;
    assert forall|i: int| 0 <= i < line.len() implies line[i] != '\n' by {
        if i < prefix.len() {
            assert(prefix.contains(prefix[i]));
        } else {
            assert(v.contains(v[i - prefix.len()]));
        }
    }
    lemma_lines_push(text, line);
    assert(line.subrange(0, prefix.len() as int) =~= prefix);
    assert(line.skip(prefix.len() as int) =~= v);
}

proof fn lemma_numeral_text(n: nat)
    ensures
        writable_text(numeral(n)),
        flattened(numeral(n)) == numeral(n),
        !numeral(n).contains(' '),
        numeral(n).len() > 0,
{
    law_numeral_reads_back(n);
    assert forall|i: int| 0 <= i < numeral(n).len() implies !white_space(#[trigger] numeral(n)[i])
        && numeral(n)[i] != '\r' by {
        assert(is_digit(numeral(n)[i]));
    }
    assert(flattened(numeral(n)) =~= numeral(n));
}

/// One more number at the end of a list of words.
proof fn lemma_words_push(text: Seq<char>, n: nat)
    ensures
        words(text + " "@ + numeral(n)) == words(text).push(numeral(n)),
{
    reveal_strlit(" ");
    lemma_numeral_text(n);
    let whole = text + " "@ + numeral(n);
    assert(flattened(whole) =~= flattened(text).push(' ') + numeral(n));
    lemma_pieces_concat(flattened(text), numeral(n), ' ');
    lemma_pieces_single(numeral(n), ' ');
    let one = seq![numeral(n)];
    lemma_nonempty_concat(pieces(flattened(text), ' '), one);
    assert(one.drop_last() =~= Seq::<Seq<char>>::empty());
    assert(nonempty(Seq::<Seq<char>>::empty()) =~= Seq::<Seq<char>>::empty());
    assert(nonempty(one) =~= one);
    assert(words(whole) =~= words(text).push(numeral(n)));
}

proof fn lemma_words_single(n: nat)
    ensures
        words(numeral(n)) == seq![numeral(n)],
{
    lemma_numeral_text(n);
    lemma_pieces_single(numeral(n), ' ');
    let one = seq![numeral(n)];
    assert(one.drop_last() =~= Seq::<Seq<char>>::empty());
    assert(nonempty(Seq::<Seq<char>>::empty()) =~= Seq::<Seq<char>>::empty());
    assert(nonempty(one) =~= one);
}

proof fn lemma_stats_text(s: Stats)
    ensures
        parsed_stats(stats_text(s)) == Some(s),
        writable_text(stats_text(s)),
{
    let a = numeral(s.files_added as nat);
    let b = numeral(s.files_modified as nat);
    let c = numeral(s.files_deleted as nat);
    let d = numeral(s.lines_added as nat);
    let e = numeral(s.lines_removed as nat);
    let t2 = a + " "@ + b;
    let t3 = t2 + " "@ + c;
    let t4 = t3 + " "@ + d;
    let t5 = t4 + " "@ + e;
    lemma_words_single(s.files_added as nat);
    lemma_words_push(a, s.files_modified as nat);
    lemma_words_push(t2, s.files_deleted as nat);
    lemma_words_push(t3, s.lines_added as nat);
    lemma_words_push(t4, s.lines_removed as nat);
    law_numeral_reads_back(s.files_added as nat);
    law_numeral_reads_back(s.files_modified as nat);
    law_numeral_reads_back(s.files_deleted as nat);
    law_numeral_reads_back(s.lines_added as nat);
    law_numeral_reads_back(s.lines_removed as nat);
    assert(t5 == stats_text(s));
    assert(words(t5) =~= seq![a, b, c, d, e]);
    lemma_numeral_text(s.files_added as nat);
    lemma_numeral_text(s.files_modified as nat);
    lemma_numeral_text(s.files_deleted as nat);
    lemma_numeral_text(s.lines_added as nat);
    lemma_numeral_text(s.lines_removed as nat);
    reveal_strlit(" ");
    lemma_no_newline_concat(a, " "@);
    lemma_no_newline_concat(a + " "@, b);
    lemma_no_newline_concat(t2, " "@);
    lemma_no_newline_concat(t2 + " "@, c);
    lemma_no_newline_concat(t3, " "@);
    lemma_no_newline_concat(t3 + " "@, d);
    lemma_no_newline_concat(t4, " "@);
    lemma_no_newline_concat(t4 + " "@, e);
    assert(t5.last() == e.last());
}

proof fn lemma_no_newline_concat(a: Seq<char>, b: Seq<char>)
    requires
        !a.contains('\n'),
        !b.contains('\n'),
    ensures
        !(a + b).contains('\n'),
{
    if (a + b).contains('\n') {
        let i = choose|i: int| 0 <= i < (a + b).len() && (a + b)[i] == '\n';
        if i < a.len() {
            assert(a[i] == '\n');
        } else {
            assert(b[i - a.len()] == '\n');
        }
    }
}

proof fn lemma_signed_text(n: int)
    ensures
        writable_text(signed_numeral(n)),
{
    if n < 0 {
        lemma_numeral_text((-n) as nat);
        lemma_no_newline_concat(seq!['-'], numeral((-n) as nat));
        assert(signed_numeral(n).last() == numeral((-n) as nat).last());
    } else {
        lemma_numeral_text(n as nat);
    }
}

proof fn lemma_id_text(id: Seq<char>)
    requires
        well_formed_id(id),
    ensures
        writable_text(id),
        id != "-"@,
{
    lemma_id_chars(id);
    assert(id.contains(id.last()));
    reveal_strlit("-");
}

proof fn lemma_record_lines(s: SnapshotView)
    requires
        writable_snapshot(s),
    ensures
        lines_of(snapshot_text(s)) == seq![
            "tree "@ + s.tree,
            "parent "@ + parent_text(s.parent),
            "turn "@ + numeral(s.turn as nat),
            "time "@ + signed_numeral(s.time as int),
            "stats "@ + stats_text(s.stats),
            "agent "@ + s.agent,
            "label "@ + s.label,
        ],
{
    reveal_strlit("tree ");
    reveal_strlit("parent ");
    reveal_strlit("turn ");
    reveal_strlit("time ");
    reveal_strlit("stats ");
    reveal_strlit("agent ");
    reveal_strlit("label ");
    reveal_strlit("-");
    lemma_id_text(s.tree);
    if let Some(p) = s.parent {
        lemma_id_text(p);
    }
    lemma_numeral_text(s.turn as nat);
    lemma_signed_text(s.time as int);
    lemma_stats_text(s.stats);
    let t0 = Seq::<char>::empty();
    let t1 = t0 + ("tree "@ + s.tree).push('\n');
    let t2 = t1 + ("parent "@ + parent_text(s.parent)).push('\n');
    let t3 = t2 + ("turn "@ + numeral(s.turn as nat)).push('\n');
    let t4 = t3 + ("time "@ + signed_numeral(s.time as int)).push('\n');
    let t5 = t4 + ("stats "@ + stats_text(s.stats)).push('\n');
    let t6 = t5 + ("agent "@ + s.agent).push('\n');
    let t7 = t6 + ("label "@ + s.label).push('\n');
    lemma_field_line(t0, "tree "@, s.tree);
    lemma_field_line(t1, "parent "@, parent_text(s.parent));
    lemma_field_line(t2, "turn "@, numeral(s.turn as nat));
    lemma_field_line(t3, "time "@, signed_numeral(s.time as int));
    lemma_field_line(t4, "stats "@, stats_text(s.stats));
    lemma_field_line(t5, "agent "@, s.agent);
    lemma_field_line(t6, "label "@, s.label);
    assert(t1 =~= ("tree "@ + s.tree).push('\n'));
    assert(t7 == snapshot_text(s));
    assert(lines_of(t0) =~= Seq::<Seq<char>>::empty());
    assert(lines_of(t7) =~= seq![
        "tree "@ + s.tree,
        "parent "@ + parent_text(s.parent),
        "turn "@ + numeral(s.turn as nat),
        "time "@ + signed_numeral(s.time as int),
        "stats "@ + stats_text(s.stats),
        "agent "@ + s.agent,
        "label "@ + s.label,
    ]);
}

/// Parsing an encoded record gives back its fields, with the id attached.
pub proof fn law_encoded_snapshot_reads_back(id: Seq<char>, s: SnapshotView)
    requires
        writable_snapshot(s),
    ensures
        parsed_snapshot(id, encode_utf8(snapshot_text(s))) == Ok::<SnapshotView, Seq<char>>(
            SnapshotView { id, ..s },
        ),
{
    lemma_record_lines(s);
    let lines = lines_of(snapshot_text(s));
    lemma_field(lines, 0, "tree "@, s.tree);
    lemma_field(lines, 1, "parent "@, parent_text(s.parent));
    lemma_field(lines, 2, "turn "@, numeral(s.turn as nat));
    lemma_field(lines, 3, "time "@, signed_numeral(s.time as int));
    lemma_field(lines, 4, "stats "@, stats_text(s.stats));
    lemma_field(lines, 5, "agent "@, s.agent);
    lemma_field(lines, 6, "label "@, s.label);
    law_numeral_reads_back(s.turn as nat);
    law_signed_numeral_reads_back(s.time as int);
    lemma_stats_text(s.stats);
    if let Some(p) = s.parent {
        lemma_id_text(p);
    }
}

proof fn lemma_field(lines: Seq<Seq<char>>, i: int, prefix: Seq<char>, v: Seq<char>)
    requires
        0 <= i < lines.len(),
        lines[i] == prefix + v,
    ensures
        field_at(lines, i, prefix) == Some(v),
{
    assert((prefix + v).subrange(0, prefix.len() as int) =~= prefix);
    assert((prefix + v).skip(prefix.len() as int) =~= v);
}

} // verus!
