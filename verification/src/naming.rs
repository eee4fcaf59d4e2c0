//! How a path on the command line leads to a file: name by name from where the
//! user stands, and as a path below the root of the working tree.

use vstd::prelude::*;
use vstd::utf8::{decode_utf8_encode_utf8, encode_utf8, encode_utf8_valid_utf8};

use crate::cli::{
    absolute, joined_names, law_normal_path_is_resolved, normal_names, path_parts, relative_path,
    resolved,
};

verus! {

/// No slash in a name.
pub open spec fn no_slash(name: Seq<u8>) -> bool {
    forall|i: int| 0 <= i < name.len() ==> #[trigger] name[i] != 47
}

proof fn lemma_parts_len(path: Seq<u8>)
    ensures
        path_parts(path).len() > 0,
    decreases path.len(),
{
    if path.len() > 0 {
        lemma_parts_len(path.drop_last());
    }
}

proof fn lemma_one_more_part(path: Seq<u8>, name: Seq<u8>)
    requires
        no_slash(name),
    ensures
        path_parts(path.push(47) + name) == path_parts(path).push(name),
    decreases name.len(),
{
    let all = path.push(47) + name;
    if name.len() == 0 {
        assert(all =~= path.push(47));
        assert(path.push(47).drop_last() =~= path);
        assert(name =~= Seq::<u8>::empty());
    } else {
        let less = name.drop_last();
        assert(no_slash(less)) by {
            assert forall|i: int| 0 <= i < less.len() implies #[trigger] less[i] != 47 by {
                assert(less[i] == name[i]);
            }
        }
        lemma_one_more_part(path, less);
        assert(all.drop_last() =~= path.push(47) + less);
        assert(all.last() == name.last() && name.last() != 47);
        let before = path_parts(path).push(less);
        assert(before.drop_last() =~= path_parts(path));
        assert(less.push(name.last()) =~= name);
    }
}

proof fn lemma_single_part(name: Seq<u8>)
    requires
        no_slash(name),
    ensures
        path_parts(name) == seq![name],
    decreases name.len(),
{
    if name.len() == 0 {
        assert(name =~= Seq::<u8>::empty());
    } else {
        let less = name.drop_last();
        assert(no_slash(less)) by {
            assert forall|i: int| 0 <= i < less.len() implies #[trigger] less[i] != 47 by {
                assert(less[i] == name[i]);
            }
        }
        lemma_single_part(less);
        assert(less.push(name.last()) =~= name);
        assert(path_parts(name) =~= seq![name]);
    }
}

proof fn lemma_resolved_prefix(parts: Seq<Seq<u8>>, more: Seq<u8>, n: nat)
    requires
        n <= parts.len(),
    ensures
        resolved(parts.push(more), n) == resolved(parts, n),
    decreases n,
{
    if n > 0 {
        lemma_resolved_prefix(parts, more, (n - 1) as nat);
        assert(parts.push(more)[n - 1] == parts[n - 1]);
    }
}

/// A path is walked name by name: an ordinary name goes one down, `..` one up as
/// far as there is anything above, `.` and a slash at the end nowhere.
pub proof fn law_path_is_walked_name_by_name(path: Seq<u8>, name: Seq<u8>)
    requires
        no_slash(name),
    ensures
        normal_names(Seq::empty()) == Seq::<Seq<u8>>::empty(),
        normal_names(path.push(47)) == normal_names(path),
        normal_names(path + seq![47u8, 46u8]) == normal_names(path),
        normal_names(path + seq![47u8, 46u8, 46u8]) == (if normal_names(path).len() == 0 {
            Seq::empty()
        } else {
            normal_names(path).drop_last()
        }),
        name.len() > 0 && name != seq![46u8] && name != seq![46u8, 46u8] ==> normal_names(
            path.push(47) + name,
        ) == normal_names(path).push(name) && normal_names(name) == seq![name],
{
    let parts = path_parts(path);
    let dot = seq![46u8];
    let dots = seq![46u8, 46u8];
    lemma_parts_len(path);
    let none = Seq::<u8>::empty();
    lemma_one_more_part(path, none);
    assert(path.push(47) + none =~= path.push(47));
    lemma_resolved_prefix(parts, none, parts.len());
    lemma_one_more_part(path, dot);
    assert(path.push(47) + dot =~= path + seq![47u8, 46u8]);
    lemma_resolved_prefix(parts, dot, parts.len());
    lemma_one_more_part(path, dots);
    assert(path.push(47) + dots =~= path + seq![47u8, 46u8, 46u8]);
    lemma_resolved_prefix(parts, dots, parts.len());
    lemma_one_more_part(path, name);
    lemma_resolved_prefix(parts, name, parts.len());
    lemma_single_part(name);
    lemma_single_part(none);
    assert(seq![none][0] == none);
    assert(seq![name][0] == name);
    reveal_with_fuel(resolved, 2);
    assert(normal_names(path + seq![47u8, 46u8, 46u8]) =~= (if normal_names(path).len() == 0 {
        Seq::empty()
    } else {
        normal_names(path).drop_last()
    }));
    if name.len() > 0 && name != dot && name != dots {
        assert(normal_names(name) =~= seq![name]);
    }
    assert(normal_names(none) =~= Seq::<Seq<u8>>::empty());
}

proof fn lemma_parts_have_no_slash(path: Seq<u8>)
    ensures
        forall|i: int| 0 <= i < path_parts(path).len() ==> no_slash(#[trigger] path_parts(path)[i]),
    decreases path.len(),
{
    if path.len() > 0 {
        let less = path_parts(path.drop_last());
        lemma_parts_have_no_slash(path.drop_last());
        lemma_parts_len(path.drop_last());
        let parts = path_parts(path);
        assert forall|i: int| 0 <= i < parts.len() implies no_slash(#[trigger] parts[i]) by {
            if path.last() == 47 {
                if i < less.len() {
                    assert(parts[i] == less[i]);
                }
            } else if i < less.len() - 1 {
                assert(parts[i] == less[i]);
            } else {
                assert(parts[i] == less.last().push(path.last()));
                assert(no_slash(less[less.len() - 1]));
            }
        }
    }
}

proof fn lemma_resolved_has_no_slash(parts: Seq<Seq<u8>>, n: nat)
    requires
        n <= parts.len(),
        forall|i: int| 0 <= i < parts.len() ==> no_slash(#[trigger] parts[i]),
    ensures
        forall|i: int|
            0 <= i < resolved(parts, n).len() ==> no_slash(#[trigger] resolved(parts, n)[i]),
    decreases n,
{
    if n > 0 {
        lemma_resolved_has_no_slash(parts, (n - 1) as nat);
        assert(no_slash(parts[n - 1]));
        let before = resolved(parts, (n - 1) as nat);
        let now = resolved(parts, n);
        assert forall|i: int| 0 <= i < now.len() implies no_slash(#[trigger] now[i]) by {
            if i < before.len() {
                assert(now[i] == before[i]);
            }
        }
    }
}

proof fn lemma_join_then_split(names: Seq<Seq<u8>>)
    requires
        names.len() > 0,
        forall|i: int| 0 <= i < names.len() ==> no_slash(#[trigger] names[i]),
    ensures
        path_parts(joined_names(names)) == names,
    decreases names.len(),
{
    if names.len() == 1 {
        assert(no_slash(names[0]));
        lemma_single_part(names[0]);
        assert(seq![names[0]] =~= names);
    } else {
        let less = names.drop_last();
        assert forall|i: int| 0 <= i < less.len() implies no_slash(#[trigger] less[i]) by {
            assert(less[i] == names[i]);
        }
        lemma_join_then_split(less);
        assert(no_slash(names[names.len() - 1]));
        lemma_one_more_part(joined_names(less), names.last());
        assert(less.push(names.last()) =~= names);
    }
}

proof fn lemma_split_then_join(path: Seq<u8>)
    ensures
        joined_names(path_parts(path)) == path,
    decreases path.len(),
{
    if path.len() > 0 {
        let less = path.drop_last();
        lemma_split_then_join(less);
        lemma_parts_len(less);
        let before = path_parts(less);
        let parts = path_parts(path);
        if path.last() == 47 {
            assert(parts.drop_last() =~= before);
            assert(joined_names(parts) =~= less.push(47));
        } else {
            assert(parts.drop_last() =~= before.drop_last());
            assert(parts.last() == before.last().push(path.last()));
            if before.len() == 1 {
                assert(joined_names(before) == before[0]);
                assert(joined_names(parts) == parts[0]);
            } else {
                assert(joined_names(parts) =~= joined_names(before).push(path.last()));
            }
        }
        assert(less.push(path.last()) =~= path);
    }
}

/// Where a path on the command line leads: `raw` itself where it starts with a
/// slash, else from `base` on.
pub open spec fn leads_to(base: Seq<u8>, raw: Seq<u8>) -> Seq<Seq<u8>> {
    if raw.len() > 0 && raw[0] == 47 {
        normal_names(raw)
    } else {
        normal_names(base + seq![47u8] + raw)
    }
}

/// The path of a file below the working tree is the names that lead to it from
/// the root of that tree; a path fails only where there are none, or none that are
/// text.
pub proof fn law_relative_path_leads_to_the_same_file(work: Seq<u8>, base: Seq<u8>, raw: Seq<char>)
    ensures
        match relative_path(work, base, raw) {
            Ok(rel) => leads_to(base, encode_utf8(raw)) == normal_names(work) + path_parts(
                encode_utf8(rel),
            ),
            Err(f) => f.code == 1 && forall|rel: Seq<char>|
                leads_to(base, encode_utf8(raw)) != normal_names(work) + #[trigger] path_parts(
                    encode_utf8(rel),
                ),
        },
{
    let target = encode_utf8(raw);
    let path = absolute(base, target);
    assert(base.push(47) + target =~= base + seq![47u8] + target);
    let root = normal_names(work);
    let names = normal_names(path);
    assert(names == leads_to(base, target));
    law_normal_path_is_resolved(path);
    let tail = names.skip(root.len() as int);
    let rest = joined_names(tail);
    lemma_parts_have_no_slash(path);
    lemma_resolved_has_no_slash(path_parts(path), path_parts(path).len());
    match relative_path(work, base, raw) {
        Ok(rel) => {
            decode_utf8_encode_utf8(rest);
            assert(names =~= root + tail);
            assert forall|i: int| 0 <= i < tail.len() implies no_slash(#[trigger] tail[i]) by {
                assert(tail[i] == names[root.len() + i]);
            }
            lemma_join_then_split(tail);
        },
        Err(f) => {
            assert forall|rel: Seq<char>|
                names != root + #[trigger] path_parts(encode_utf8(rel)) by {
                let parts = path_parts(encode_utf8(rel));
                if names == root + parts {
                    assert(root =~= names.subrange(0, root.len() as int));
                    assert(tail =~= parts);
                    lemma_split_then_join(encode_utf8(rel));
                    encode_utf8_valid_utf8(rel);
                    lemma_parts_len(encode_utf8(rel));
                    if rest.len() == 0 {
                        lemma_single_part(rest);
                        assert(parts[0] == rest);
                        assert(names[root.len() as int] == parts[0]);
                    }
                }
            }
        },
    }
}

} // verus!
