//! The order of strings, which is that of their UTF-8 bytes, and stable
//! sorting by a string key.

use vstd::prelude::*;
use vstd::utf8::encode_utf8;

use crate::text::lemma_encode_injective;

verus! {

/// `a` comes before `b` in the dictionary order of bytes.
pub open spec fn bytes_before(a: Seq<u8>, b: Seq<u8>) -> bool
    decreases a.len(),
{
    if b.len() == 0 {
        false
    } else if a.len() == 0 {
        true
    } else {
        a[0] < b[0] || (a[0] == b[0] && bytes_before(a.drop_first(), b.drop_first()))
    }
}

/// `a` comes before `b` in the order of strings.
pub open spec fn text_before(a: Seq<char>, b: Seq<char>) -> bool {
    bytes_before(encode_utf8(a), encode_utf8(b))
}

proof fn lemma_not_before_itself(a: Seq<u8>)
    ensures
        !bytes_before(a, a),
    decreases a.len(),
{
    if a.len() > 0 {
        lemma_not_before_itself(a.drop_first());
    }
}

proof fn lemma_bytes_order(a: Seq<u8>, b: Seq<u8>, c: Seq<u8>)
    ensures
        !bytes_before(a, a),
        bytes_before(a, b) ==> !bytes_before(b, a),
        a == b || bytes_before(a, b) || bytes_before(b, a),
        bytes_before(a, b) && bytes_before(b, c) ==> bytes_before(a, c),
    decreases a.len() + b.len() + c.len(),
{
    lemma_not_before_itself(a);
    if a.len() > 0 && b.len() > 0 {
        if c.len() > 0 {
            lemma_bytes_order(a.drop_first(), b.drop_first(), c.drop_first());
        } else {
            lemma_bytes_order(a.drop_first(), b.drop_first(), c);
        }
        if a[0] == b[0] && a.drop_first() == b.drop_first() {
            assert(a =~= seq![a[0]] + a.drop_first());
            assert(b =~= seq![b[0]] + b.drop_first());
        }
    } else if a.len() == 0 && b.len() == 0 {
        assert(a =~= b);
    }
}

/// The order of strings is a strict total order.
pub(crate) proof fn lemma_text_order(a: Seq<char>, b: Seq<char>, c: Seq<char>)
    ensures
        !text_before(a, a),
        text_before(a, b) ==> !text_before(b, a),
        a == b || text_before(a, b) || text_before(b, a),
        text_before(a, b) && text_before(b, c) ==> text_before(a, c),
{
    lemma_bytes_order(encode_utf8(a), encode_utf8(b), encode_utf8(c));
    if encode_utf8(a) == encode_utf8(b) {
        lemma_encode_injective(a, b);
    }
}

/// Whether `a` comes before `b`.
pub fn is_before(a: &str, b: &str) -> (r: bool)
    ensures
        r == text_before(a@, b@),
{
    let x = a.as_bytes();
    let y = b.as_bytes();
    let mut i: usize = 0;
    assert(x@.skip(0) =~= x@);
    assert(y@.skip(0) =~= y@);
    while i < x.len() && i < y.len()
        invariant
            i <= x@.len(),
            i <= y@.len(),
            text_before(a@, b@) == bytes_before(x@.skip(i as int), y@.skip(i as int)),
        decreases x@.len() - i,
    {
        proof {
            assert(x@.skip(i as int).drop_first() =~= x@.skip(i + 1));
            assert(y@.skip(i as int).drop_first() =~= y@.skip(i + 1));
        }
        if x[i] < y[i] {
            return true;
        }
        if y[i] < x[i] {
            return false;
        }
        i = i + 1;
    }
    i < y.len()
}

/// `e` put into a sorted list, behind everything that does not come after it.
pub open spec fn placed<V>(sorted: Seq<V>, e: V, key: spec_fn(V) -> Seq<char>) -> Seq<V>
    decreases sorted.len(),
{
    if sorted.len() == 0 || !text_before(key(e), key(sorted.last())) {
        sorted.push(e)
    } else {
        placed(sorted.drop_last(), e, key).push(sorted.last())
    }
}

/// The list in the order of its keys; items with the same key keep their order.
pub open spec fn sorted_by<V>(list: Seq<V>, key: spec_fn(V) -> Seq<char>) -> Seq<V>
    decreases list.len(),
{
    if list.len() == 0 {
        Seq::empty()
    } else {
        placed(sorted_by(list.drop_last(), key), list.last(), key)
    }
}

/// No item comes before an earlier one.
pub open spec fn in_order<V>(list: Seq<V>, key: spec_fn(V) -> Seq<char>) -> bool {
    forall|i: int, j: int|
        0 <= i < j < list.len() ==> !text_before(key(#[trigger] list[j]), key(#[trigger] list[i]))
}

/// No two items have the same key.
pub open spec fn distinct_keys<V>(list: Seq<V>, key: spec_fn(V) -> Seq<char>) -> bool {
    forall|i: int, j: int|
        0 <= i < list.len() && 0 <= j < list.len() && key(#[trigger] list[i]) == key(
            #[trigger] list[j],
        ) ==> i == j
}

/// Items with distinct keys have one order only.
pub proof fn lemma_one_order<V>(p: Seq<V>, q: Seq<V>, key: spec_fn(V) -> Seq<char>)
    requires
        in_order(p, key),
        in_order(q, key),
        distinct_keys(p, key),
        distinct_keys(q, key),
        p.len() == q.len(),
        forall|v: V| #[trigger] p.contains(v) <==> q.contains(v),
    ensures
        p == q,
    decreases p.len(),
{
    if p.len() == 0 {
        assert(p =~= q);
    } else {
        let last = p.len() - 1;
        assert(q.contains(p[last])) by {
            assert(p.contains(p[last]));
        }
        assert(p.contains(q[last])) by {
            assert(q.contains(q[last]));
        }
        let k = choose|k: int| 0 <= k < q.len() && q[k] == p[last];
        let i = choose|i: int| 0 <= i < p.len() && p[i] == q[last];
        assert(k == last) by {
            if k != last && i != last {
                assert(!text_before(key(q[last]), key(q[k])));
                assert(!text_before(key(p[last]), key(p[i])));
                lemma_text_order(key(p[last]), key(q[last]), key(p[last]));
                assert(key(q[k]) == key(q[last]));
            }
        }
        let a = p.drop_last();
        let b = q.drop_last();
        assert forall|v: V| #[trigger] a.contains(v) <==> b.contains(v) by {
            if a.contains(v) {
                let x = choose|x: int| 0 <= x < a.len() && a[x] == v;
                assert(p[x] == v);
                assert(p.contains(v));
                let y = choose|y: int| 0 <= y < q.len() && q[y] == v;
                if y == last {
                    assert(key(p[x]) == key(p[last]));
                }
                assert(b[y] == v);
            }
            if b.contains(v) {
                let y = choose|y: int| 0 <= y < b.len() && b[y] == v;
                assert(q[y] == v);
                assert(p.contains(v) <==> q.contains(v));
                let x = choose|x: int| 0 <= x < p.len() && p[x] == v;
                if x == last {
                    assert(key(q[y]) == key(q[last]));
                }
                assert(a[x] == v);
            }
        }
        assert(distinct_keys(a, key)) by {
            assert forall|i: int, j: int|
                0 <= i < a.len() && 0 <= j < a.len() && key(#[trigger] a[i]) == key(
                    #[trigger] a[j],
                ) implies i == j by {
                assert(p[i] == a[i] && p[j] == a[j]);
            }
        }
        assert(distinct_keys(b, key)) by {
            assert forall|i: int, j: int|
                0 <= i < b.len() && 0 <= j < b.len() && key(#[trigger] b[i]) == key(
                    #[trigger] b[j],
                ) implies i == j by {
                assert(q[i] == b[i] && q[j] == b[j]);
            }
        }
        assert(in_order(a, key)) by {
            assert forall|i: int, j: int| 0 <= i < j < a.len() implies !text_before(
                key(#[trigger] a[j]),
                key(#[trigger] a[i]),
            ) by {
                assert(p[i] == a[i] && p[j] == a[j]);
            }
        }
        assert(in_order(b, key)) by {
            assert forall|i: int, j: int| 0 <= i < j < b.len() implies !text_before(
                key(#[trigger] b[j]),
                key(#[trigger] b[i]),
            ) by {
                assert(q[i] == b[i] && q[j] == b[j]);
            }
        }
        lemma_one_order(a, b, key);
        assert(p =~= a.push(p[last]));
        assert(q =~= b.push(q[last]));
    }
}

/// Sorting commutes with a mapping that keeps the keys.
pub proof fn lemma_sorted_map<V, W>(
    list: Seq<V>,
    key: spec_fn(V) -> Seq<char>,
    f: spec_fn(V) -> W,
    other: spec_fn(W) -> Seq<char>,
)
    requires
        forall|v: V| other(#[trigger] f(v)) == key(v),
    ensures
        sorted_by(list, key).map_values(f) == sorted_by(list.map_values(f), other),
    decreases list.len(),
{
    if list.len() == 0 {
        assert(sorted_by(list, key).map_values(f) =~= sorted_by(list.map_values(f), other));
    } else {
        lemma_sorted_map(list.drop_last(), key, f, other);
        assert(list.map_values(f).drop_last() =~= list.drop_last().map_values(f));
        lemma_placed_map(sorted_by(list.drop_last(), key), list.last(), key, f, other);
    }
}

proof fn lemma_placed_map<V, W>(
    sorted: Seq<V>,
    e: V,
    key: spec_fn(V) -> Seq<char>,
    f: spec_fn(V) -> W,
    other: spec_fn(W) -> Seq<char>,
)
    requires
        forall|v: V| other(#[trigger] f(v)) == key(v),
    ensures
        placed(sorted, e, key).map_values(f) == placed(sorted.map_values(f), f(e), other),
    decreases sorted.len(),
{
    if sorted.len() == 0 {
        assert(placed(sorted, e, key).map_values(f) =~= placed(
            sorted.map_values(f),
            f(e),
            other,
        ));
    } else {
        lemma_placed_map(sorted.drop_last(), e, key, f, other);
        assert(sorted.map_values(f).drop_last() =~= sorted.drop_last().map_values(f));
        assert(other(f(e)) == key(e));
        assert(other(f(sorted.last())) == key(sorted.last()));
        assert(placed(sorted, e, key).map_values(f) =~= placed(
            sorted.map_values(f),
            f(e),
            other,
        ));
    }
}

proof fn lemma_placed<V>(sorted: Seq<V>, e: V, key: spec_fn(V) -> Seq<char>)
    requires
        in_order(sorted, key),
    ensures
        in_order(placed(sorted, e, key), key),
        placed(sorted, e, key).to_multiset() == sorted.to_multiset().insert(e),
        placed(sorted, e, key).len() == sorted.len() + 1,
        forall|v: V| #[trigger] placed(sorted, e, key).contains(v) <==> sorted.contains(v) || v == e,
    decreases sorted.len(),
{
    broadcast use vstd::seq_lib::group_to_multiset_ensures;

    let out = placed(sorted, e, key);
    if sorted.len() == 0 || !text_before(key(e), key(sorted.last())) {
        assert forall|i: int, j: int| 0 <= i < j < out.len() implies !text_before(
            key(#[trigger] out[j]),
            key(#[trigger] out[i]),
        ) by {
            if j == sorted.len() {
                let last = sorted.len() - 1;
                if i < last {
                    assert(!text_before(key(sorted[last]), key(sorted[i])));
                }
                lemma_text_order(key(e), key(sorted[i]), key(sorted[last]));
                lemma_text_order(key(e), key(sorted[last]), key(sorted[i]));
                lemma_text_order(key(sorted[i]), key(sorted[last]), key(e));
            }
        }
        assert forall|v: V| #[trigger] out.contains(v) <==> sorted.contains(v) || v == e by {
            if sorted.contains(v) {
                let i = choose|i: int| 0 <= i < sorted.len() && sorted[i] == v;
                assert(out[i] == v);
            }
            if v == e {
                assert(out[sorted.len() as int] == e);
            }
        }
    } else {
        let head = sorted.drop_last();
        let last = sorted.last();
        lemma_placed(head, e, key);
        let inner = placed(head, e, key);
        assert(sorted =~= head.push(last));
        assert forall|i: int, j: int| 0 <= i < j < out.len() implies !text_before(
            key(#[trigger] out[j]),
            key(#[trigger] out[i]),
        ) by {
            if j == inner.len() {
                assert(inner.contains(inner[i]));
                if inner[i] == e {
                    lemma_text_order(key(e), key(last), key(last));
                } else {
                    let k = choose|k: int| 0 <= k < head.len() && head[k] == inner[i];
                    assert(!text_before(key(sorted[sorted.len() - 1]), key(sorted[k])));
                }
            }
        }
        assert forall|v: V| #[trigger] out.contains(v) <==> sorted.contains(v) || v == e by {
            if out.contains(v) {
                let i = choose|i: int| 0 <= i < out.len() && out[i] == v;
                if i == inner.len() {
                    assert(sorted[sorted.len() - 1] == v);
                } else {
                    assert(inner.contains(v));
                    if v != e {
                        let k = choose|k: int| 0 <= k < head.len() && head[k] == v;
                        assert(sorted[k] == v);
                    }
                }
            }
            if sorted.contains(v) {
                let k = choose|k: int| 0 <= k < sorted.len() && sorted[k] == v;
                if k == head.len() {
                    assert(out[inner.len() as int] == v);
                } else {
                    assert(head[k] == v);
                    assert(inner.contains(v));
                    let i = choose|i: int| 0 <= i < inner.len() && inner[i] == v;
                    assert(out[i] == v);
                }
            }
            if v == e {
                assert(inner.contains(v));
                let i = choose|i: int| 0 <= i < inner.len() && inner[i] == v;
                assert(out[i] == v);
            }
        }
    }
}

/// Sorting orders a list and keeps its items.
pub proof fn law_sorted_by<V>(list: Seq<V>, key: spec_fn(V) -> Seq<char>)
    ensures
        in_order(sorted_by(list, key), key),
        sorted_by(list, key).to_multiset() == list.to_multiset(),
        sorted_by(list, key).len() == list.len(),
        forall|v: V| #[trigger] sorted_by(list, key).contains(v) <==> list.contains(v),
    decreases list.len(),
{
    broadcast use vstd::seq_lib::group_to_multiset_ensures;

    if list.len() > 0 {
        law_sorted_by(list.drop_last(), key);
        lemma_placed(sorted_by(list.drop_last(), key), list.last(), key);
        assert(list =~= list.drop_last().push(list.last()));
        assert forall|v: V| #[trigger] list.contains(v) <==> list.drop_last().contains(v) || v
            == list.last() by {
            if list.contains(v) {
                let i = choose|i: int| 0 <= i < list.len() && list[i] == v;
                if i < list.len() - 1 {
                    assert(list.drop_last()[i] == v);
                }
            }
            if list.drop_last().contains(v) {
                let i = choose|i: int| 0 <= i < list.drop_last().len() && list.drop_last()[i] == v;
                assert(list[i] == v);
            }
            if v == list.last() {
                assert(list[list.len() - 1] == v);
            }
        }
    } else {
        assert(sorted_by(list, key) =~= list);
    }
}

/// What a list is sorted by.
pub trait Keyed {
    /// The key.
    spec fn key(&self) -> Seq<char>;

    /// The key.
    fn key_text(&self) -> (r: &str)
        ensures
            r@ == self.key(),
    ;
}

/// Sort a list by its keys, keeping the order of items with the same key.
pub fn sort<T: Keyed>(list: Vec<T>) -> (r: Vec<T>)
    ensures
        r@ == sorted_by(list@, |t: T| t.key()),
{
    let ghost key = |t: T| t.key();
    let ghost whole = list@;
    let total: usize = list.len();
    let mut rest = list;
    let mut waiting: Vec<T> = Vec::new();
    assert(whole.take(whole.len() as int) =~= whole);
    assert(waiting@.reverse() =~= Seq::<T>::empty());
    while rest.len() > 0
        invariant
            rest@ + waiting@.reverse() == whole,
        decreases rest@.len(),
    {
        let ghost before = rest@;
        let ghost queue = waiting@;
        match rest.pop() {
            Some(e) => {
                waiting.push(e);
                assert(rest@ + waiting@.reverse() =~= before + queue.reverse());
            },
            None => {},
        }
    }
    assert(waiting@.reverse() =~= whole);
    let mut out: Vec<T> = Vec::new();
    let mut done: usize = 0;
    assert(whole.take(0) =~= Seq::<T>::empty());
    while waiting.len() > 0
        invariant
            key == (|t: T| t.key()),
            done + waiting@.len() == whole.len(),
            waiting@.reverse() == whole.skip(done as int),
            out@ == sorted_by(whole.take(done as int), key),
            whole.len() == total,
        decreases waiting@.len(),
    {
        let ghost queue = waiting@;
        match waiting.pop() {
            Some(e) => {
                proof {
                    assert(queue.reverse()[0] == e);
                    assert(whole[done as int] == whole.skip(done as int)[0]);
                    assert(waiting@.reverse() =~= whole.skip(done + 1)) by {
                        assert(waiting@.reverse() =~= queue.reverse().drop_first());
                    }
                    assert(whole.take(done + 1).drop_last() =~= whole.take(done as int));
                    assert(whole.take(done + 1).last() == e);
                }
                place(&mut out, e);
                done = done + 1;
            },
            None => {},
        }
    }
    assert(whole.take(whole.len() as int) =~= whole);
    out
}

/// Put an item into a sorted list.
fn place<T: Keyed>(list: &mut Vec<T>, e: T)
    ensures
        final(list)@ == placed(old(list)@, e, |t: T| t.key()),
{
    let ghost key = |t: T| t.key();
    let ghost whole = list@;
    let mut i: usize = list.len();
    assert(whole.take(i as int) =~= whole);
    assert(whole.skip(i as int) =~= Seq::<T>::empty());
    assert(placed(whole, e, key) =~= placed(whole.take(i as int), e, key) + whole.skip(
        i as int,
    ));
    while i > 0 && is_before(e.key_text(), list[i - 1].key_text())
        invariant
            key == (|t: T| t.key()),
            i <= list@.len(),
            list@ == whole,
            placed(whole, e, key) == placed(whole.take(i as int), e, key) + whole.skip(i as int),
        decreases i,
    {
        proof {
            let head = whole.take(i as int);
            assert(head.last() == whole[i - 1]);
            assert(head.drop_last() =~= whole.take(i - 1));
            assert(placed(head, e, key) + whole.skip(i as int) =~= placed(
                whole.take(i - 1),
                e,
                key,
            ) + whole.skip(i - 1));
        }
        i = i - 1;
    }
    list.insert(i, e);
    assert(list@ =~= whole.take(i as int).push(e) + whole.skip(i as int));
    assert(i > 0 ==> whole.take(i as int).last() == whole[i - 1]);
}

/// The items that a list of places stands for.
pub open spec fn picked<T>(list: Seq<T>, places: Seq<usize>) -> Seq<T> {
    places.map_values(|k: usize| list[k as int])
}

/// The places of a list's items in the order of their keys; items with the
/// same key keep their order.
pub fn sorted_places<T: Keyed>(list: &Vec<T>) -> (r: Vec<usize>)
    ensures
        picked(list@, r@) == sorted_by(list@, |t: T| t.key()),
        r@.len() == list@.len(),
        forall|i: int| 0 <= i < r@.len() ==> #[trigger] r@[i] < list@.len(),
{
    let ghost key = |t: T| t.key();
    let mut out: Vec<usize> = Vec::new();
    let mut i: usize = 0;
    assert(list@.take(0) =~= Seq::<T>::empty());
    assert(picked(list@, out@) =~= Seq::<T>::empty());
    while i < list.len()
        invariant
            i <= list@.len(),
            key == (|t: T| t.key()),
            out@.len() == i,
            forall|k: int| 0 <= k < out@.len() ==> #[trigger] out@[k] < list@.len(),
            picked(list@, out@) == sorted_by(list@.take(i as int), key),
        decreases list@.len() - i,
    {
        let ghost whole = picked(list@, out@);
        let ghost e = list@[i as int];
        let mut at: usize = out.len();
        assert(whole.take(at as int) =~= whole);
        assert(placed(whole, e, key) =~= placed(whole.take(at as int), e, key) + whole.skip(
            at as int,
        ));
        while at > 0 && is_before(list[i].key_text(), list[out[at - 1]].key_text())
            invariant
                i < list@.len(),
                e == list@[i as int],
                key == (|t: T| t.key()),
                at <= out@.len(),
                out@.len() == i,
                whole == picked(list@, out@),
                forall|k: int| 0 <= k < out@.len() ==> #[trigger] out@[k] < list@.len(),
                placed(whole, e, key) == placed(whole.take(at as int), e, key) + whole.skip(
                    at as int,
                ),
            decreases at,
        {
            proof {
                let head = whole.take(at as int);
                assert(head.last() == whole[at - 1]);
                assert(head.drop_last() =~= whole.take(at - 1));
                assert(placed(head, e, key) + whole.skip(at as int) =~= placed(
                    whole.take(at - 1),
                    e,
                    key,
                ) + whole.skip(at - 1));
            }
            at = at - 1;
        }
        let ghost before = out@;
        out.insert(at, i);
        proof {
            assert(at > 0 ==> whole.take(at as int).last() == whole[at - 1]);
            assert(picked(list@, out@) =~= whole.take(at as int).push(e) + whole.skip(at as int));
            assert(list@.take(i + 1).drop_last() =~= list@.take(i as int));
            assert(list@.take(i + 1).last() == e);
            assert forall|k: int| 0 <= k < out@.len() implies #[trigger] out@[k] < list@.len() by {
                if k < at {
                    assert(out@[k] == before[k]);
                } else if k > at {
                    assert(out@[k] == before[k - 1]);
                }
            }
        }
        i = i + 1;
    }
    assert(list@.take(list@.len() as int) =~= list@);
    out
}

impl Keyed for String {
    open spec fn key(&self) -> Seq<char> {
        self@
    }

    fn key_text(&self) -> (r: &str) {
        self.as_str()
    }
}

/// The numbers in ascending order.
pub open spec fn ascending(list: Seq<u64>) -> Seq<u64>
    decreases list.len(),
{
    if list.len() == 0 {
        Seq::empty()
    } else {
        placed_number(ascending(list.drop_last()), list.last())
    }
}

/// `n` put into an ascending list.
pub open spec fn placed_number(sorted: Seq<u64>, n: u64) -> Seq<u64>
    decreases sorted.len(),
{
    if sorted.len() == 0 || sorted.last() <= n {
        sorted.push(n)
    } else {
        placed_number(sorted.drop_last(), n).push(sorted.last())
    }
}

/// Put a number into an ascending list.
pub fn place_number(list: &mut Vec<u64>, n: u64)
    ensures
        final(list)@ == placed_number(old(list)@, n),
{
    let ghost whole = list@;
    let mut i: usize = list.len();
    assert(whole.take(i as int) =~= whole);
    assert(placed_number(whole, n) =~= placed_number(whole.take(i as int), n) + whole.skip(
        i as int,
    ));
    while i > 0 && n < list[i - 1]
        invariant
            i <= list@.len(),
            list@ == whole,
            placed_number(whole, n) == placed_number(whole.take(i as int), n) + whole.skip(
                i as int,
            ),
        decreases i,
    {
        proof {
            let head = whole.take(i as int);
            assert(head.last() == whole[i - 1]);
            assert(head.drop_last() =~= whole.take(i - 1));
            assert(placed_number(head, n) + whole.skip(i as int) =~= placed_number(
                whole.take(i - 1),
                n,
            ) + whole.skip(i - 1));
        }
        i = i - 1;
    }
    list.insert(i, n);
    assert(list@ =~= whole.take(i as int).push(n) + whole.skip(i as int));
    assert(i > 0 ==> whole.take(i as int).last() == whole[i - 1]);
}

proof fn lemma_placed_number(sorted: Seq<u64>, n: u64)
    requires
        forall|i: int, j: int| 0 <= i < j < sorted.len() ==> sorted[i] <= sorted[j],
    ensures
        ({
            let out = placed_number(sorted, n);
            &&& forall|i: int, j: int| 0 <= i < j < out.len() ==> out[i] <= out[j]
            &&& forall|v: u64| #[trigger] out.contains(v) <==> sorted.contains(v) || v == n
            &&& out.len() == sorted.len() + 1
        }),
    decreases sorted.len(),
{
    let out = placed_number(sorted, n);
    if sorted.len() == 0 || sorted.last() <= n {
        assert(out == sorted.push(n));
        assert forall|v: u64| #[trigger] out.contains(v) <==> sorted.contains(v) || v == n by {
            if sorted.contains(v) {
                let i = choose|i: int| 0 <= i < sorted.len() && sorted[i] == v;
                assert(out[i] == v);
            }
            if v == n {
                assert(out[sorted.len() as int] == v);
            }
        }
    } else {
        let head = sorted.drop_last();
        lemma_placed_number(head, n);
        let inner = placed_number(head, n);
        assert forall|v: u64| #[trigger] out.contains(v) <==> sorted.contains(v) || v == n by {
            if out.contains(v) {
                let i = choose|i: int| 0 <= i < out.len() && out[i] == v;
                if i < inner.len() {
                    assert(inner.contains(v));
                    if v != n {
                        let k = choose|k: int| 0 <= k < head.len() && head[k] == v;
                        assert(sorted[k] == v);
                    }
                } else {
                    assert(sorted[sorted.len() - 1] == v);
                }
            }
            if sorted.contains(v) || v == n {
                if v == sorted.last() {
                    assert(out[inner.len() as int] == v);
                } else {
                    if v != n {
                        let k = choose|k: int| 0 <= k < sorted.len() && sorted[k] == v;
                        assert(head[k] == v);
                    }
                    assert(inner.contains(v));
                    let i = choose|i: int| 0 <= i < inner.len() && inner[i] == v;
                    assert(out[i] == v);
                }
            }
        }
        assert forall|i: int, j: int| 0 <= i < j < out.len() implies out[i] <= out[j] by {
            if j == inner.len() {
                assert(inner.contains(inner[i]));
                if inner[i] != n {
                    let k = choose|k: int| 0 <= k < head.len() && head[k] == inner[i];
                    assert(sorted[k] <= sorted[sorted.len() - 1]);
                }
            }
        }
    }
}

/// Sorting numbers orders them and keeps them.
pub proof fn law_ascending(list: Seq<u64>)
    ensures
        forall|i: int, j: int|
            0 <= i < j < ascending(list).len() ==> ascending(list)[i] <= ascending(list)[j],
        forall|v: u64| #[trigger] ascending(list).contains(v) <==> list.contains(v),
        ascending(list).len() == list.len(),
    decreases list.len(),
{
    if list.len() > 0 {
        let head = list.drop_last();
        law_ascending(head);
        lemma_placed_number(ascending(head), list.last());
        assert forall|v: u64| #[trigger] ascending(list).contains(v) <==> list.contains(v) by {
            if list.contains(v) {
                let i = choose|i: int| 0 <= i < list.len() && list[i] == v;
                if i < head.len() {
                    assert(head[i] == v);
                }
            }
            if head.contains(v) {
                let i = choose|i: int| 0 <= i < head.len() && head[i] == v;
                assert(list[i] == v);
            }
            if v == list.last() {
                assert(list[list.len() - 1] == v);
            }
        }
    } else {
        assert(ascending(list) =~= list);
    }
}

} // verus!
