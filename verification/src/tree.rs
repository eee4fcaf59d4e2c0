//! Directory trees: built from a flat list of files, stored as nested tree
//! objects, and looked up by path.

use vstd::prelude::*;
use vstd::utf8::encode_utf8;

use crate::object::{
    encode_tree, entry_views, lemma_extends, lemma_extends_itself, object_id, stored, tree_text, Kind,
    Objects, TreeEntry, TreeEntryView, MODE_DIR, MODE_EXEC, MODE_FILE,
};
use crate::order::{is_before, text_before};
use crate::text::{same, texts};

verus! {

/// What a directory holds under a name.
pub enum NodeView {
    File { id: Seq<char>, executable: bool },
    Dir(Seq<EntryView>),
}

/// A name in a directory and what it stands for.
pub struct EntryView {
    pub name: Seq<char>,
    pub node: NodeView,
}

/// What a directory holds under a name: a file, or the entries of a directory.
pub enum Node {
    File { id: String, executable: bool },
    Dir(Vec<Entry>),
}

/// A name in a directory and what it stands for.
pub struct Entry {
    pub name: String,
    pub node: Node,
}

/// The contents of a node.
pub open spec fn node_view(n: Node) -> NodeView
    decreases n,
{
    match n {
        Node::File { id, executable } => NodeView::File { id: id@, executable },
        Node::Dir(list) => NodeView::Dir(
            Seq::new(
                list@.len(),
                |i: int|
                    if 0 <= i < list@.len() {
                        EntryView { name: list[i].name@, node: node_view(list[i].node) }
                    } else {
                        arbitrary()
                    },
            ),
        ),
    }
}

/// The contents of a directory.
pub open spec fn dir_view(list: Seq<Entry>) -> Seq<EntryView> {
    list.map_values(|e: Entry| EntryView { name: e.name@, node: node_view(e.node) })
}

proof fn lemma_dir_node(list: Vec<Entry>)
    ensures
        node_view(Node::Dir(list)) == NodeView::Dir(dir_view(list@)),
{
    if let NodeView::Dir(d) = node_view(Node::Dir(list)) {
        assert(d =~= dir_view(list@));
    }
}

/// Where `name` stands in a directory; its length where it does not.
pub open spec fn name_index(d: Seq<EntryView>, name: Seq<char>) -> int
    decreases d.len(),
{
    if d.len() == 0 || d[0].name == name {
        0
    } else {
        1 + name_index(d.drop_first(), name)
    }
}

/// What a directory holds under `name`.
pub open spec fn node_at(d: Seq<EntryView>, name: Seq<char>) -> Option<NodeView> {
    let i = name_index(d, name);
    if i < d.len() {
        Some(d[i].node)
    } else {
        None
    }
}

/// How many names at the front come before `name`.
pub open spec fn insert_index(d: Seq<EntryView>, name: Seq<char>) -> int
    decreases d.len(),
{
    if d.len() == 0 || !text_before(d[0].name, name) {
        0
    } else {
        1 + insert_index(d.drop_first(), name)
    }
}

/// The directory with `name` standing for `node`.
pub open spec fn with_name(d: Seq<EntryView>, name: Seq<char>, node: NodeView) -> Seq<EntryView> {
    let e = EntryView { name, node };
    let i = name_index(d, name);
    if i < d.len() {
        d.update(i, e)
    } else {
        d.insert(insert_index(d, name), e)
    }
}

/// The directory with a file put at a path. A directory on the way is made
/// where there is none; a file on the way is a conflict.
pub open spec fn planted(
    d: Seq<EntryView>,
    path: Seq<Seq<char>>,
    id: Seq<char>,
    executable: bool,
) -> Result<Seq<EntryView>, Seq<char>>
    decreases path.len(),
{
    if path.len() <= 1 {
        Ok(with_name(d, path[0], NodeView::File { id, executable }))
    } else {
        let rest = path.drop_first();
        match node_at(d, path[0]) {
            None => match planted(Seq::empty(), rest, id, executable) {
                Ok(sub) => Ok(with_name(d, path[0], NodeView::Dir(sub))),
                Err(e) => Err(e),
            },
            Some(NodeView::Dir(inner)) => match planted(inner, rest, id, executable) {
                Ok(sub) => Ok(with_name(d, path[0], NodeView::Dir(sub))),
                Err(e) => Err(e),
            },
            Some(NodeView::File { .. }) => Err(
                "path conflict at component '"@ + path[0] + "'"@,
            ),
        }
    }
}

/// The file that a path leads to.
pub open spec fn looked_up(d: Seq<EntryView>, path: Seq<Seq<char>>) -> Option<(Seq<char>, bool)>
    decreases path.len(),
{
    if path.len() == 0 {
        None
    } else {
        match node_at(d, path[0]) {
            Some(NodeView::File { id, executable }) => if path.len() == 1 {
                Some((id, executable))
            } else {
                None
            },
            Some(NodeView::Dir(sub)) => if path.len() == 1 {
                None
            } else {
                looked_up(sub, path.drop_first())
            },
            None => None,
        }
    }
}

/// The mode of a file.
pub open spec fn file_mode(executable: bool) -> Seq<char> {
    if executable {
        MODE_EXEC@
    } else {
        MODE_FILE@
    }
}

/// The tree entries of the first `n` names of a directory.
pub open spec fn tree_entries(d: Seq<EntryView>, n: nat) -> Seq<TreeEntryView>
    decreases d, n,
{
    if n == 0 || n > d.len() {
        Seq::empty()
    } else {
        let e = d[n - 1];
        tree_entries(d, (n - 1) as nat).push(
            match e.node {
                NodeView::File { id, executable } => TreeEntryView {
                    mode: file_mode(executable),
                    id,
                    name: e.name,
                },
                NodeView::Dir(sub) => TreeEntryView {
                    mode: MODE_DIR@,
                    id: object_id(Kind::Tree, encode_utf8(tree_text(tree_entries(sub, sub.len())))),
                    name: e.name,
                },
            },
        )
    }
}

/// The payload of a directory's tree object.
pub open spec fn tree_payload(d: Seq<EntryView>) -> Seq<u8> {
    encode_utf8(tree_text(tree_entries(d, d.len())))
}

/// The id of a directory's tree object.
pub open spec fn tree_id(d: Seq<EntryView>) -> Seq<char> {
    object_id(Kind::Tree, tree_payload(d))
}

/// The object table after the directories below the first `n` names were
/// stored.
pub open spec fn subtrees_stored(
    objects: Map<Seq<char>, Seq<u8>>,
    d: Seq<EntryView>,
    n: nat,
) -> Map<Seq<char>, Seq<u8>>
    decreases d, n,
{
    if n == 0 || n > d.len() {
        objects
    } else {
        let before = subtrees_stored(objects, d, (n - 1) as nat);
        match d[n - 1].node {
            NodeView::File { .. } => before,
            NodeView::Dir(sub) => stored(
                subtrees_stored(before, sub, sub.len()),
                Kind::Tree,
                tree_payload(sub),
            ),
        }
    }
}

/// The object table after a directory was stored, deepest trees first.
pub open spec fn tree_stored(objects: Map<Seq<char>, Seq<u8>>, d: Seq<EntryView>) -> Map<
    Seq<char>,
    Seq<u8>,
> {
    stored(subtrees_stored(objects, d, d.len()), Kind::Tree, tree_payload(d))
}

fn find_name(d: &Vec<Entry>, name: &str) -> (r: usize)
    ensures
        r == name_index(dir_view(d@), name@),
        r <= d@.len(),
{
    let ghost v = dir_view(d@);
    let mut i: usize = 0;
    assert(v.skip(0) =~= v);
    while i < d.len()
        invariant
            i <= d@.len(),
            v == dir_view(d@),
            name_index(v, name@) == i + name_index(v.skip(i as int), name@),
        decreases d@.len() - i,
    {
        assert(v.skip(i as int)[0].name == d@[i as int].name@);
        if same(d[i].name.as_str(), name) {
            return i;
        }
        assert(v.skip(i as int).drop_first() =~= v.skip(i + 1));
        i = i + 1;
    }
    i
}

fn find_place(d: &Vec<Entry>, name: &str) -> (r: usize)
    ensures
        r == insert_index(dir_view(d@), name@),
        r <= d@.len(),
{
    let ghost v = dir_view(d@);
    let mut i: usize = 0;
    assert(v.skip(0) =~= v);
    while i < d.len()
        invariant
            i <= d@.len(),
            v == dir_view(d@),
            insert_index(v, name@) == i + insert_index(v.skip(i as int), name@),
        decreases d@.len() - i,
    {
        assert(v.skip(i as int)[0].name == d@[i as int].name@);
        if !is_before(d[i].name.as_str(), name) {
            return i;
        }
        assert(v.skip(i as int).drop_first() =~= v.skip(i + 1));
        i = i + 1;
    }
    i
}

/// Put a file into a directory at the path `comps[at..]`.
pub(crate) fn insert(d: &mut Vec<Entry>, comps: &Vec<&str>, at: usize, id: &str, executable: bool) -> (r: Result<
    (),
    String,
>)
    requires
        at < comps@.len(),
    ensures
        match r {
            Ok(_) => planted(dir_view(old(d)@), texts(comps@).skip(at as int), id@, executable) == Ok::<
                Seq<EntryView>,
                Seq<char>,
            >(dir_view(final(d)@)),
            Err(e) => planted(dir_view(old(d)@), texts(comps@).skip(at as int), id@, executable) == Err::<
                Seq<EntryView>,
                Seq<char>,
            >(e@),
        },
    decreases comps@.len() - at,
{
    let ghost before = dir_view(d@);
    let ghost path = texts(comps@).skip(at as int);
    let name = comps[at];
    assert(path[0] == name@);
    assert(path.drop_first() =~= texts(comps@).skip(at + 1));
    let i: usize = find_name(d, name);
    if at == comps.len() - 1 {
        let node = Node::File { id: id.to_owned(), executable };
        put(d, i, name, node);
        return Ok(());
    }
    if i < d.len() {
        let mut slot = d.remove(i);
        let ghost rest = d@;
        match slot.node {
            Node::File { id: old_id, executable: old_executable } => {
                let mut e = "path conflict at component '".to_string();
                e.append(name);
                e.append("'");
                Err(e)
            },
            Node::Dir(mut sub) => {
                let ghost inner = dir_view(sub@);
                proof {
                    lemma_dir_node(sub);
                    assert(before[i as int].node == NodeView::Dir(inner));
                }
                match insert(&mut sub, comps, at + 1, id, executable) {
                    Ok(_) => {
                        proof {
                            lemma_dir_node(sub);
                        }
                        d.insert(i, Entry { name: slot.name, node: Node::Dir(sub) });
                        proof {
                            assert(before[i as int].name == name@) by {
                                lemma_name_index(before, name@);
                            }
                            assert(dir_view(d@) =~= with_name(
                                before,
                                name@,
                                NodeView::Dir(dir_view(sub@)),
                            ));
                        }
                        Ok(())
                    },
                    Err(e) => Err(e),
                }
            },
        }
    } else {
        let mut sub: Vec<Entry> = Vec::new();
        assert(dir_view(sub@) =~= Seq::<EntryView>::empty());
        match insert(&mut sub, comps, at + 1, id, executable) {
            Ok(_) => {
                proof {
                    lemma_dir_node(sub);
                }
                put(d, i, name, Node::Dir(sub));
                Ok(())
            },
            Err(e) => Err(e),
        }
    }
}

pub proof fn lemma_name_index(d: Seq<EntryView>, name: Seq<char>)
    ensures
        0 <= name_index(d, name) <= d.len(),
        name_index(d, name) < d.len() ==> d[name_index(d, name)].name == name,
        forall|j: int| 0 <= j < name_index(d, name) ==> (#[trigger] d[j]).name != name,
    decreases d.len(),
{
    if d.len() > 0 && d[0].name != name {
        lemma_name_index(d.drop_first(), name);
        assert forall|j: int| 0 <= j < name_index(d, name) implies (#[trigger] d[j]).name
            != name by {
            if j > 0 {
                assert(d[j] == d.drop_first()[j - 1]);
            }
        }
    }
}

/// Let `name`, which stands at `i` or nowhere, stand for `node`.
fn put(d: &mut Vec<Entry>, i: usize, name: &str, node: Node)
    requires
        i == name_index(dir_view(old(d)@), name@),
        i <= old(d)@.len(),
    ensures
        dir_view(final(d)@) == with_name(dir_view(old(d)@), name@, node_view(node)),
{
    let e = Entry { name: name.to_owned(), node };
    if i < d.len() {
        d.set(i, e);
    } else {
        let k: usize = find_place(d, name);
        d.insert(k, e);
    }
    assert(dir_view(d@) =~= with_name(dir_view(old(d)@), name@, node_view(node)));
}

/// Store a directory and everything below it; returns the id of its tree.
pub(crate) fn write_dir(objects: &mut Objects, d: &Vec<Entry>) -> (id: String)
    ensures
        id@ == tree_id(dir_view(d@)),
        final(objects)@ == tree_stored(old(objects)@, dir_view(d@)),
        final(objects).extends(*old(objects)),
    decreases d,
{
    let ghost v = dir_view(d@);
    let ghost start = *objects;
    proof {
        lemma_extends_itself(start);
    }
    let mut entries: Vec<TreeEntry> = Vec::new();
    let mut i: usize = 0;
    assert(entry_views(entries@) =~= Seq::<TreeEntryView>::empty());
    while i < d.len()
        invariant
            i <= d@.len(),
            v == dir_view(d@),
            entry_views(entries@) == tree_entries(v, i as nat),
            objects@ == subtrees_stored(old(objects)@, v, i as nat),
            start == *old(objects),
            objects.extends(start),
        decreases d@.len() - i,
    {
        let ghost before = entries@;
        let ghost so_far = *objects;
        let e = &d[i];
        match &e.node {
            Node::File { id, executable } => {
                let mode = if *executable {
                    MODE_EXEC
                } else {
                    MODE_FILE
                };
                entries.push(
                    TreeEntry { mode: mode.to_owned(), id: id.clone(), name: e.name.clone() },
                );
            },
            Node::Dir(sub) => {
                proof {
                    lemma_dir_node(*sub);
                }
                let id = write_dir(objects, sub);
                proof {
                    lemma_extends(start, so_far, *objects);
                }
                entries.push(TreeEntry { mode: MODE_DIR.to_owned(), id, name: e.name.clone() });
            },
        }
        i = i + 1;
        assert(entry_views(entries@) =~= tree_entries(v, i as nat));
    }
    let payload = encode_tree(entries.as_slice());
    let ghost so_far = *objects;
    let id = crate::object::write(objects, Kind::Tree, payload.as_slice());
    proof {
        lemma_extends(start, so_far, *objects);
    }
    id
}

} // verus!
