//! What the field index says about the records it indexes.
//!
//! `indexes(n, recs)` states that index `n` lists, for every field and key,
//! exactly the records whose field holds that key, and, for every field,
//! exactly the records whose field holds an array. Adding and removing
//! records keeps this, and lookups then answer with records that satisfy
//! the query, or with nothing only when no record does.

use crate::indexer::{
    lemma_buckets_add_kind, lemma_buckets_remove_kind,
    add_ok, child_or_null, children_add, children_remove, flat, index_all_by_range,
    index_all_by_value, index_first_by_range, index_first_by_value, json_leaf, key_pos,
    keys_distinct, leaf_add, leaf_add_ok, leaf_remove, leaf_remove_ok, leafish_wf, lemma_key_pos,
    node_add, node_children, node_remove, node_wf, remove_ok, select, selected_buckets,
    IndexView,
};
use crate::json::JsonView;
use crate::ordered::{in_range, leaf_lt, leaf_rank, lemma_leaf_order, LeafKey, RangeView};
use crate::ordered_index::{
    all_in_range, bucket, buckets_add, buckets_remove, buckets_wf, find_key, first_in_range, lemma_find_key, lemma_lower_pos, lemma_set_insert, lemma_set_swap_remove,
    lower_pos, set_insert, set_swap_remove,
};
use vstd::prelude::*;

verus! {

/// What a record holds at `field`: the field's value for an object (null
/// when absent), and the record itself otherwise.
pub open spec fn field_value(v: JsonView, field: Seq<char>) -> JsonView {
    match v {
        JsonView::Object(m) => match key_pos(m, field) {
            Some(p) => m[p].1,
            None => JsonView::Null,
        },
        _ => v,
    }
}

/// Whether record value `v` holds key `k` at `field`.
pub open spec fn holds_key(v: JsonView, field: Seq<char>, k: LeafKey) -> bool {
    json_leaf(field_value(v, field)) == Some(k)
}

/// Some record numbered `x` holds key `k` at `field`.
pub open spec fn some_holds(recs: Seq<(u64, JsonView)>, x: u64, field: Seq<char>, k: LeafKey) -> bool {
    exists|j: int| 0 <= j < recs.len() && (#[trigger] recs[j]).0 == x && holds_key(recs[j].1, field, k)
}

/// Some record numbered `x` holds an array at `field`.
pub open spec fn some_array(recs: Seq<(u64, JsonView)>, x: u64, field: Seq<char>) -> bool {
    exists|j: int|
        0 <= j < recs.len() && (#[trigger] recs[j]).0 == x && field_value(recs[j].1, field) is Array
}

/// The records listed at `field` as holding arrays.
pub open spec fn vec_at(n: IndexView, field: Seq<char>) -> Seq<u64> {
    match select(n, field) {
        IndexView::Vec(s) => s,
        _ => Seq::empty(),
    }
}

/// Every number a record holds at any field can be indexed.
pub open spec fn leaves_ok(v: JsonView) -> bool {
    forall|f: Seq<char>|
        (#[trigger] field_value(v, f)) is Number ==> json_leaf(field_value(v, f)) is Some
}

/// The record numbers, in order.
pub open spec fn record_ids(recs: Seq<(u64, JsonView)>) -> Seq<u64> {
    recs.map_values(|r: (u64, JsonView)| r.0)
}

/// Index `n` lists exactly what the records `recs` hold.
pub open spec fn indexes(n: IndexView, recs: Seq<(u64, JsonView)>) -> bool {
    &&& node_wf(n)
    &&& record_ids(recs).no_duplicates()
    &&& forall|j: int| 0 <= j < recs.len() ==> flat((#[trigger] recs[j]).1)
    &&& forall|j: int| 0 <= j < recs.len() ==> leaves_ok((#[trigger] recs[j]).1)
    &&& forall|j: int| 0 <= j < recs.len() && (#[trigger] recs[j]).1 is Object ==> n is Branch
    &&& forall|j: int|
        0 <= j < recs.len() && n is Branch && !((#[trigger] recs[j]).1 is Object) ==> recs[j].1 is Null
    &&& forall|f: Seq<char>, k: LeafKey, x: u64|
        #[trigger] index_all_by_value(n, f, k).contains(x) <==> some_holds(recs, x, f, k)
    &&& forall|f: Seq<char>, x: u64| #[trigger] vec_at(n, f).contains(x) <==> some_array(recs, x, f)
    &&& forall|f: Seq<char>, k: LeafKey| #[trigger] index_all_by_value(n, f, k).no_duplicates()
}

/// Recording key `k0` for `i` adds `i` to that bucket and changes no other.
pub proof fn lemma_bucket_after_add(s: Seq<(LeafKey, Seq<u64>)>, k0: LeafKey, i: u64, k: LeafKey)
    requires
        buckets_wf(s),
    ensures
        bucket(buckets_add(s, k0, i), k) == (if k == k0 {
            set_insert(bucket(s, k0), i)
        } else {
            bucket(s, k)
        }),
{
    let r = buckets_add(s, k0, i);
    crate::ordered_index::lemma_buckets_add_wf(s, k0, i);
    lemma_lower_pos(s, k0);
    lemma_find_key(s, k0);
    lemma_find_key(s, k);
    lemma_find_key(r, k);
    lemma_find_key(r, k0);
    let p = lower_pos(s, k0);
    if p < s.len() && s[p].0 == k0 {
        assert(r[p].0 == k0);
        if let Some(q) = find_key(s, k) {
            assert(r[q].0 == k);
        }
        if let Some(q) = find_key(r, k) {
            assert(s[q].0 == k);
        }
    } else {
        assert(r[p].0 == k0);
        assert(r[p].1 =~= set_insert(Seq::<u64>::empty(), i));
        if let Some(q) = find_key(s, k) {
            if q < p {
                assert(r[q] == s[q]);
            } else {
                assert(r[q + 1] == s[q]);
            }
        }
        if let Some(q) = find_key(r, k) {
            if q < p {
                assert(r[q] == s[q]);
            } else if q > p {
                assert(r[q] == s[q - 1]);
            }
        }
    }
}

/// Forgetting `i` under key `k0` takes `i` out of that bucket and changes no other.
pub proof fn lemma_bucket_after_remove(s: Seq<(LeafKey, Seq<u64>)>, k0: LeafKey, i: u64, k: LeafKey)
    requires
        buckets_wf(s),
    ensures
        bucket(buckets_remove(s, k0, i), k) == (if k == k0 {
            set_swap_remove(bucket(s, k0), i)
        } else {
            bucket(s, k)
        }),
{
    let r = buckets_remove(s, k0, i);
    crate::ordered_index::lemma_buckets_remove_wf(s, k0, i);
    lemma_find_key(s, k0);
    lemma_find_key(s, k);
    lemma_find_key(r, k);
    if let Some(p) = find_key(s, k0) {
        if let Some(q) = find_key(s, k) {
            assert(r[q].0 == k);
        }
        if let Some(q) = find_key(r, k) {
            assert(s[q].0 == k);
        }
    }
}

/// The records of all keys in a range are those of each key in the range.
pub proof fn lemma_all_in_range(s: Seq<(LeafKey, Seq<u64>)>, r: RangeView, x: u64)
    requires
        buckets_wf(s),
    ensures
        all_in_range(s, r).contains(x) <==> exists|q: int|
            0 <= q < s.len() && in_range((#[trigger] s[q]).0, r) && s[q].1.contains(x),
    decreases s.len(),
{
    if s.len() > 0 {
        let t = s.drop_first();
        assert(buckets_wf(t)) by {
            assert forall|a: int, b: int| 0 <= a < b < t.len() implies leaf_lt(
                #[trigger] t[a].0,
                #[trigger] t[b].0,
            ) by {
                assert(t[a] == s[a + 1] && t[b] == s[b + 1]);
            }
            assert forall|a: int| 0 <= a < t.len() implies (#[trigger] t[a]).1.no_duplicates() by {
                assert(t[a] == s[a + 1]);
            }
        }
        lemma_all_in_range(t, r, x);
        let head = if in_range(s[0].0, r) {
            s[0].1
        } else {
            Seq::<u64>::empty()
        };
        assert(all_in_range(s, r) == head + all_in_range(t, r));
        if all_in_range(s, r).contains(x) {
            let w = choose|w: int| 0 <= w < all_in_range(s, r).len() && all_in_range(s, r)[w] == x;
            if w < head.len() {
                assert(head[w] == x);
                assert(s[0].1.contains(x));
            } else {
                assert(all_in_range(t, r)[w - head.len()] == x);
                let q = choose|q: int| 0 <= q < t.len() && in_range((#[trigger] t[q]).0, r) && t[q].1.contains(x);
                assert(s[q + 1] == t[q]);
            }
        }
        if exists|q: int| 0 <= q < s.len() && in_range((#[trigger] s[q]).0, r) && s[q].1.contains(x) {
            let q = choose|q: int| 0 <= q < s.len() && in_range((#[trigger] s[q]).0, r) && s[q].1.contains(x);
            if q == 0 {
                let w = choose|w: int| 0 <= w < s[0].1.len() && s[0].1[w] == x;
                assert((head + all_in_range(t, r))[w] == x);
            } else {
                assert(t[q - 1] == s[q]);
                assert(all_in_range(t, r).contains(x));
                let w = choose|w: int| 0 <= w < all_in_range(t, r).len() && all_in_range(t, r)[w] == x;
                assert((head + all_in_range(t, r))[head.len() + w] == x);
            }
        }
    }
}

/// The first record in a range is a record of a key in the range, and there
/// is none only when every bucket in the range is empty.
pub proof fn lemma_first_in_range(s: Seq<(LeafKey, Seq<u64>)>, r: RangeView)
    ensures
        first_in_range(s, r) matches Some(x) ==> exists|q: int|
            0 <= q < s.len() && in_range((#[trigger] s[q]).0, r) && s[q].1.contains(x),
        first_in_range(s, r) is None ==> forall|q: int|
            0 <= q < s.len() && in_range((#[trigger] s[q]).0, r) ==> s[q].1.len() == 0,
    decreases s.len(),
{
    if s.len() > 0 {
        let t = s.drop_first();
        lemma_first_in_range(t, r);
        if in_range(s[0].0, r) && s[0].1.len() > 0 {
            assert(s[0].1[0] == s[0].1[0]);
            assert(s[0].1.contains(s[0].1[0]));
        } else {
            if let Some(x) = first_in_range(s, r) {
                let q = choose|q: int| 0 <= q < t.len() && in_range((#[trigger] t[q]).0, r) && t[q].1.contains(x);
                assert(s[q + 1] == t[q]);
            } else {
                assert forall|q: int| 0 <= q < s.len() && in_range((#[trigger] s[q]).0, r) implies s[q].1.len() == 0 by {
                    if q > 0 {
                        assert(s[q] == t[q - 1]);
                    }
                }
            }
        }
    }
}


/// The records listed under key `k` at a leaf.
pub open spec fn leaf_bucket(n: IndexView, k: LeafKey) -> Seq<u64> {
    match n {
        IndexView::Leaf(_, s) => bucket(s, k),
        _ => Seq::empty(),
    }
}

/// The records listed as arrays at a leaf.
pub open spec fn leaf_vec(n: IndexView) -> Seq<u64> {
    match n {
        IndexView::Vec(s) => s,
        _ => Seq::empty(),
    }
}

proof fn lemma_bucket_empty(k: LeafKey)
    ensures
        bucket(Seq::<(LeafKey, Seq<u64>)>::empty(), k) == Seq::<u64>::empty(),
{
}

/// In a leaf, every bucket is free of duplicates.
proof fn lemma_leaf_bucket_nodup(n: IndexView, k: LeafKey)
    requires
        leafish_wf(n),
    ensures
        leaf_bucket(n, k).no_duplicates(),
        leaf_vec(n).no_duplicates(),
{
    if let IndexView::Leaf(_, s) = n {
        lemma_find_key(s, k);
    }
}

/// A bucket that is not empty is under a key of the leaf's kind.
proof fn lemma_leaf_bucket_kind(n: IndexView, k: LeafKey)
    requires
        leafish_wf(n),
        leaf_bucket(n, k).len() > 0,
    ensures
        n matches IndexView::Leaf(kd, _) && kd == leaf_rank(k),
{
    if let IndexView::Leaf(_, s) = n {
        lemma_find_key(s, k);
    }
}

/// What recording a plain value at a leaf does to its buckets.
pub proof fn lemma_leaf_add(n: IndexView, v: JsonView, i: u64, k: LeafKey, x: u64)
    requires
        leafish_wf(n),
        leaf_add_ok(n, v),
    ensures
        leafish_wf(leaf_add(n, v, i)),
        leaf_bucket(leaf_add(n, v, i), k).contains(x) <==> leaf_bucket(n, k).contains(x) || (x
            == i && json_leaf(v) == Some(k)),
        leaf_vec(leaf_add(n, v, i)).contains(x) <==> leaf_vec(n).contains(x) || (x == i
            && v is Array),
{
    lemma_leaf_bucket_nodup(n, k);
    match v {
        JsonView::Null => {},
        JsonView::Array(_) => {
            if let IndexView::Vec(s) = n {
                lemma_set_insert(s, i);
            } else {
                lemma_set_insert(Seq::empty(), i);
                assert(seq![i] =~= set_insert(Seq::<u64>::empty(), i));
            }
        },
        JsonView::Object(_) => {},
        _ => {
            let k0 = json_leaf(v).unwrap();
            let s = match n {
                IndexView::Leaf(_, s) => s,
                _ => Seq::empty(),
            };
            let kd = match n {
                IndexView::Leaf(kd, _) => kd,
                _ => leaf_rank(k0),
            };
            crate::ordered_index::lemma_buckets_add_wf(s, k0, i);
            lemma_buckets_add_kind(s, k0, i, kd);
            lemma_bucket_after_add(s, k0, i, k);
            lemma_find_key(s, k0);
            lemma_set_insert(bucket(s, k0), i);
        },
    }
}

/// What taking a plain value out of a leaf does to its buckets.
pub proof fn lemma_leaf_remove(n: IndexView, v: JsonView, i: u64, k: LeafKey, x: u64)
    requires
        leafish_wf(n),
        leaf_remove_ok(n, v) || v is Null || n is Null,
    ensures
        leafish_wf(leaf_remove(n, i, v)),
        leaf_bucket(leaf_remove(n, i, v), k).contains(x) <==> leaf_bucket(n, k).contains(x) && !(x
            == i && json_leaf(v) == Some(k)),
        leaf_vec(leaf_remove(n, i, v)).contains(x) <==> leaf_vec(n).contains(x) && !(x == i
            && v is Array),
        leaf_bucket(leaf_remove(n, i, v), k).no_duplicates(),
        leaf_vec(leaf_remove(n, i, v)).no_duplicates(),
{
    lemma_leaf_bucket_nodup(n, k);
    match v {
        JsonView::Null => {},
        JsonView::Array(_) => {
            if let IndexView::Vec(s) = n {
                lemma_set_swap_remove(s, i);
            }
        },
        JsonView::Object(_) => {},
        _ => {
            let k0 = json_leaf(v).unwrap();
            if let IndexView::Leaf(kd, s) = n {
                crate::ordered_index::lemma_buckets_remove_wf(s, k0, i);
                lemma_buckets_remove_kind(s, k0, i, kd);
                lemma_bucket_after_remove(s, k0, i, k);
                lemma_find_key(s, k0);
                lemma_set_swap_remove(bucket(s, k0), i);
                crate::ordered_index::lemma_buckets_remove_wf(s, k0, i);
                lemma_find_key(buckets_remove(s, k0, i), k);
            }
        },
    }
    lemma_leaf_bucket_nodup(leaf_remove(n, i, v), k);
}

/// One step of recording or forgetting a field: the child named `k` becomes
/// `child` (created when absent) and the other children stay.
pub open spec fn child_step(c: Seq<(Seq<char>, IndexView)>, k: Seq<char>, child: IndexView) -> Seq<
    (Seq<char>, IndexView),
> {
    match key_pos(c, k) {
        Some(p) => c.update(p, (c[p].0, child)),
        None => c.push((k, child)),
    }
}

pub proof fn lemma_child_step(c: Seq<(Seq<char>, IndexView)>, k: Seq<char>, child: IndexView)
    requires
        keys_distinct(c),
    ensures
        keys_distinct(child_step(c, k, child)),
        forall|k2: Seq<char>|
            k2 != k ==> child_or_null(child_step(c, k, child), k2) == child_or_null(c, k2),
        forall|k2: Seq<char>|
            k2 != k ==> (key_pos(child_step(c, k, child), k2) is Some) == (key_pos(c, k2) is Some),
        child_or_null(child_step(c, k, child), k) == child,
        key_pos(child_step(c, k, child), k) is Some,
{
    let newc = child_step(c, k, child);
    lemma_key_pos(c, k);
    match key_pos(c, k) {
        Some(p) => {
            assert(keys_distinct(newc)) by {
                assert forall|a: int, b: int| 0 <= a < b < newc.len() implies (
                #[trigger] newc[a]).0 != (#[trigger] newc[b]).0 by {
                    assert(newc[a].0 == c[a].0 && newc[b].0 == c[b].0);
                }
            }
            lemma_key_pos(newc, k);
            assert(newc[p].0 == k);
            assert forall|k2: Seq<char>| k2 != k implies child_or_null(newc, k2) == child_or_null(
                c,
                k2,
            ) && (key_pos(newc, k2) is Some) == (key_pos(c, k2) is Some) by {
                lemma_key_pos(c, k2);
                lemma_key_pos(newc, k2);
                if let Some(q) = key_pos(c, k2) {
                    assert(newc[q].0 == k2);
                }
                if let Some(q) = key_pos(newc, k2) {
                    assert(q != p);
                    assert(c[q].0 == k2);
                }
            }
        },
        None => {
            assert(keys_distinct(newc)) by {
                assert forall|a: int, b: int| 0 <= a < b < newc.len() implies (
                #[trigger] newc[a]).0 != (#[trigger] newc[b]).0 by {
                    if b == c.len() {
                        assert(newc[a] == c[a]);
                    } else {
                        assert(newc[a] == c[a] && newc[b] == c[b]);
                    }
                }
            }
            lemma_key_pos(newc, k);
            assert(newc[c.len() as int].0 == k);
            assert forall|k2: Seq<char>| k2 != k implies child_or_null(newc, k2) == child_or_null(
                c,
                k2,
            ) && (key_pos(newc, k2) is Some) == (key_pos(c, k2) is Some) by {
                lemma_key_pos(c, k2);
                lemma_key_pos(newc, k2);
                if let Some(q) = key_pos(c, k2) {
                    assert(newc[q] == c[q]);
                }
                if let Some(q) = key_pos(newc, k2) {
                    assert(q != c.len());
                    assert(newc[q] == c[q]);
                }
            }
        },
    }
    assert forall|k2: Seq<char>| k2 != k implies (#[trigger] key_pos(newc, k2) is Some) == (key_pos(c, k2) is Some) by {
        lemma_key_pos(c, k2);
        lemma_key_pos(newc, k2);
        if let Some(q) = key_pos(c, k2) {
            assert(newc[q].0 == k2);
        }
        if let Some(q) = key_pos(newc, k2) {
            if q < c.len() {
                assert(c[q].0 == k2);
            }
        }
    }
}

/// Where key `f` sits in a sequence of distinct keys, with or without its
/// last pair.
proof fn lemma_key_pos_drop_last<V>(m: Seq<(Seq<char>, V)>, f: Seq<char>)
    requires
        keys_distinct(m),
        m.len() > 0,
    ensures
        keys_distinct(m.drop_last()),
        f == m.last().0 ==> key_pos(m, f) == Some(m.len() - 1) && key_pos(m.drop_last(), f) is None,
        f != m.last().0 ==> key_pos(m, f) == key_pos(m.drop_last(), f),
{
    let t = m.drop_last();
    assert(keys_distinct(t)) by {
        assert forall|a: int, b: int| 0 <= a < b < t.len() implies (#[trigger] t[a]).0 != (
        #[trigger] t[b]).0 by {
            assert(t[a] == m[a] && t[b] == m[b]);
        }
    }
    lemma_key_pos(m, f);
    lemma_key_pos(t, f);
    assert(m[m.len() - 1] == m.last());
    if let Some(q) = key_pos(t, f) {
        assert(m[q] == t[q]);
    }
    if let Some(q) = key_pos(m, f) {
        if q < m.len() - 1 {
            assert(t[q] == m[q]);
        }
    }
}

/// The child named `f` after recording fields `m`.
pub proof fn lemma_children_add(
    ch: Seq<(Seq<char>, IndexView)>,
    m: Seq<(Seq<char>, JsonView)>,
    i: u64,
    f: Seq<char>,
)
    requires
        keys_distinct(ch),
        keys_distinct(m),
    ensures
        keys_distinct(children_add(ch, m, i)),
        child_or_null(children_add(ch, m, i), f) == (match key_pos(m, f) {
            Some(q) => leaf_add(child_or_null(ch, f), m[q].1, i),
            None => child_or_null(ch, f),
        }),
    decreases m.len(),
{
    if m.len() > 0 {
        let t = m.drop_last();
        lemma_key_pos_drop_last(m, f);
        lemma_children_add(ch, t, i, f);
        let k = m.last().0;
        lemma_children_add(ch, t, i, k);
        lemma_key_pos_drop_last(m, k);
        let c = children_add(ch, t, i);
        let child = leaf_add(child_or_null(c, k), m.last().1, i);
        lemma_key_pos(c, k);
        assert(children_add(ch, m, i) == child_step(c, k, child));
        lemma_child_step(c, k, child);
    }
}

/// The child named `f` after forgetting fields `m`; the names stay.
pub proof fn lemma_children_remove(
    ch: Seq<(Seq<char>, IndexView)>,
    m: Seq<(Seq<char>, JsonView)>,
    i: u64,
    f: Seq<char>,
)
    requires
        keys_distinct(ch),
        keys_distinct(m),
    ensures
        keys_distinct(children_remove(ch, m, i)),
        child_or_null(children_remove(ch, m, i), f) == (match key_pos(m, f) {
            Some(q) => if key_pos(ch, f) is Some {
                leaf_remove(child_or_null(ch, f), i, m[q].1)
            } else {
                IndexView::Null
            },
            None => child_or_null(ch, f),
        }),
        (key_pos(children_remove(ch, m, i), f) is Some) == (key_pos(ch, f) is Some),
    decreases m.len(),
{
    if m.len() > 0 {
        let t = m.drop_last();
        lemma_key_pos_drop_last(m, f);
        lemma_children_remove(ch, t, i, f);
        let k = m.last().0;
        lemma_children_remove(ch, t, i, k);
        lemma_key_pos_drop_last(m, k);
        let c = children_remove(ch, t, i);
        lemma_key_pos(c, k);
        if key_pos(c, k) is Some {
            let child = leaf_remove(child_or_null(c, k), i, m.last().1);
            assert(children_remove(ch, m, i) == child_step(c, k, child));
            lemma_child_step(c, k, child);
        }
    }
}

/// The leaf a lookup reads after adding a record is the old leaf with the
/// record's value at that field recorded.
pub proof fn lemma_select_add(n: IndexView, v: JsonView, i: u64, f: Seq<char>)
    requires
        node_wf(n),
        flat(v),
        add_ok(n, v),
    ensures
        leafish_wf(select(n, f)),
        leaf_add_ok(select(n, f), field_value(v, f)),
        select(node_add(n, v, i), f) == leaf_add(select(n, f), field_value(v, f), i),
{
    lemma_key_pos(node_children(n), f);
    match v {
        JsonView::Object(m) => {
            lemma_children_add(node_children(n), m, i, f);
            lemma_key_pos(m, f);
        },
        _ => {},
    }
}

/// The leaf a lookup reads after removing a record is the old leaf with the
/// record's value at that field taken out.
pub proof fn lemma_select_remove(n: IndexView, v: JsonView, i: u64, f: Seq<char>)
    requires
        node_wf(n),
        flat(v),
        remove_ok(n, v),
    ensures
        leafish_wf(select(n, f)),
        leaf_remove_ok(select(n, f), field_value(v, f)) || field_value(v, f) is Null || select(n, f) is Null,
        select(node_remove(n, i, v), f) == leaf_remove(select(n, f), i, field_value(v, f)),
{
    lemma_key_pos(node_children(n), f);
    match v {
        JsonView::Object(m) => {
            lemma_children_remove(node_children(n), m, i, f);
            lemma_key_pos(m, f);
        },
        _ => {},
    }
}

/// Some record numbered `x` holds, at `field`, a key in range `r`.
pub open spec fn some_in_range(recs: Seq<(u64, JsonView)>, x: u64, field: Seq<char>, r: RangeView) -> bool {
    exists|j: int|
        0 <= j < recs.len() && (#[trigger] recs[j]).0 == x && (json_leaf(field_value(recs[j].1, field)) matches Some(k) && in_range(k, r))
}

/// The lookups read the buckets of the leaf a field selects.
proof fn lemma_lookup_reads_leaf(n: IndexView, f: Seq<char>, k: LeafKey)
    ensures
        index_all_by_value(n, f, k) == leaf_bucket(select(n, f), k),
        vec_at(n, f) == leaf_vec(select(n, f)),
{
    lemma_bucket_empty(k);
}

/// A non-object record value holds its own key (or array) at every field.
proof fn lemma_plain_record_listed(n: IndexView, recs: Seq<(u64, JsonView)>, j: int)
    requires
        indexes(n, recs),
        0 <= j < recs.len(),
        !(recs[j].1 is Object),
        !(recs[j].1 is Null),
    ensures
        !(n is Branch),
        !(n is Null),
        recs[j].1 is Array ==> n is Vec,
        !(recs[j].1 is Array) ==> (json_leaf(recs[j].1) matches Some(k) && (n matches IndexView::Leaf(kd, _) && kd == leaf_rank(k))),
{
    let f = Seq::<char>::empty();
    let v = recs[j].1;
    let x = recs[j].0;
    assert(field_value(v, f) == v);
    lemma_lookup_reads_leaf(n, f, LeafKey::Int(0));
    if v is Array {
        assert(some_array(recs, x, f));
        assert(vec_at(n, f).contains(x));
    } else {
        assert(leaves_ok(v) ==> (field_value(v, f) is Number ==> json_leaf(field_value(v, f)) is Some));
        let k = json_leaf(v).unwrap();
        assert(some_holds(recs, x, f, k));
        lemma_lookup_reads_leaf(n, f, k);
        assert(index_all_by_value(n, f, k).contains(x));
        assert(node_wf(n));
        if n is Branch {
            assert(false);
        }
        lemma_leaf_bucket_kind(n, k);
    }
}

/// Adding a record with a fresh number keeps the index exact.
pub proof fn lemma_indexes_add(n: IndexView, recs: Seq<(u64, JsonView)>, v: JsonView, i: u64)
    requires
        indexes(n, recs),
        flat(v),
        leaves_ok(v),
        add_ok(n, v),
        !record_ids(recs).contains(i),
    ensures
        indexes(node_add(n, v, i), recs.push((i, v))),
{
    let n2 = node_add(n, v, i);
    let recs2 = recs.push((i, v));
    // the new index is well formed
    match v {
        JsonView::Object(m) => {
            let ch = node_children(n);
            lemma_children_add(ch, m, i, Seq::empty());
            let c2 = children_add(ch, m, i);
            assert forall|q: int| 0 <= q < c2.len() implies leafish_wf((#[trigger] c2[q]).1) by {
                let key = c2[q].0;
                lemma_key_pos(c2, key);
                lemma_select_add(n, v, i, key);
                lemma_leaf_add(select(n, key), field_value(v, key), i, LeafKey::Int(0), 0);
            }
        },
        _ => {
            if !(n is Branch) {
                lemma_leaf_add(n, v, i, LeafKey::Int(0), 0);
            }
        },
    }
    assert(node_wf(n2));
    // record numbers stay distinct
    assert(record_ids(recs2) =~= record_ids(recs).push(i));
    assert(record_ids(recs2).no_duplicates()) by {
        let ids = record_ids(recs2);
        assert forall|a: int, b: int| 0 <= a < b < ids.len() implies ids[a] != ids[b] by {
            if b == recs.len() {
                assert(record_ids(recs)[a] == ids[a]);
            } else {
                assert(record_ids(recs)[a] == ids[a] && record_ids(recs)[b] == ids[b]);
            }
        }
    }
    assert forall|j: int| 0 <= j < recs2.len() implies flat((#[trigger] recs2[j]).1) && leaves_ok(recs2[j].1) by {
        if j < recs.len() {
            assert(recs2[j] == recs[j]);
        }
    }
    assert forall|j: int| 0 <= j < recs2.len() && (#[trigger] recs2[j]).1 is Object implies n2 is Branch by {
        if j < recs.len() {
            assert(recs2[j] == recs[j]);
        }
    }
    assert forall|j: int| 0 <= j < recs2.len() && n2 is Branch && !((#[trigger] recs2[j]).1 is Object) implies recs2[j].1 is Null by {
        if j < recs.len() {
            assert(recs2[j] == recs[j]);
            if !(n is Branch) && !(recs[j].1 is Null) {
                lemma_plain_record_listed(n, recs, j);
            }
        } else {
            assert(recs2[j].1 == v);
        }
    }
    assert forall|f: Seq<char>, k: LeafKey, x: u64|
        #[trigger] index_all_by_value(n2, f, k).contains(x) <==> some_holds(recs2, x, f, k) by {
        lemma_select_add(n, v, i, f);
        lemma_leaf_add(select(n, f), field_value(v, f), i, k, x);
        lemma_lookup_reads_leaf(n, f, k);
        lemma_lookup_reads_leaf(n2, f, k);
        if some_holds(recs2, x, f, k) {
            let j = choose|j: int| 0 <= j < recs2.len() && (#[trigger] recs2[j]).0 == x && holds_key(recs2[j].1, f, k);
            if j < recs.len() {
                assert(recs2[j] == recs[j]);
                assert(some_holds(recs, x, f, k));
            }
        }
        if index_all_by_value(n, f, k).contains(x) {
            let j = choose|j: int| 0 <= j < recs.len() && (#[trigger] recs[j]).0 == x && holds_key(recs[j].1, f, k);
            assert(recs2[j] == recs[j]);
        }
        if x == i && holds_key(v, f, k) {
            assert(recs2[recs.len() as int] == (i, v));
        }
    }
    assert forall|f: Seq<char>, x: u64| #[trigger] vec_at(n2, f).contains(x) <==> some_array(recs2, x, f) by {
        lemma_select_add(n, v, i, f);
        lemma_leaf_add(select(n, f), field_value(v, f), i, LeafKey::Int(0), x);
        lemma_lookup_reads_leaf(n, f, LeafKey::Int(0));
        lemma_lookup_reads_leaf(n2, f, LeafKey::Int(0));
        if some_array(recs2, x, f) {
            let j = choose|j: int| 0 <= j < recs2.len() && (#[trigger] recs2[j]).0 == x && field_value(recs2[j].1, f) is Array;
            if j < recs.len() {
                assert(recs2[j] == recs[j]);
                assert(some_array(recs, x, f));
            }
        }
        if vec_at(n, f).contains(x) {
            let j = choose|j: int| 0 <= j < recs.len() && (#[trigger] recs[j]).0 == x && field_value(recs[j].1, f) is Array;
            assert(recs2[j] == recs[j]);
        }
        if x == i && field_value(v, f) is Array {
            assert(recs2[recs.len() as int] == (i, v));
        }
    }
    assert forall|f: Seq<char>, k: LeafKey| #[trigger] index_all_by_value(n2, f, k).no_duplicates() by {
        lemma_select_add(n, v, i, f);
        lemma_leaf_add(select(n, f), field_value(v, f), i, k, 0);
        lemma_lookup_reads_leaf(n2, f, k);
        lemma_leaf_bucket_nodup(select(n2, f), k);
    }
}


/// With distinct record numbers, record `j` is the only one numbered `recs[j].0`.
proof fn lemma_unique_id(recs: Seq<(u64, JsonView)>, j: int, j2: int)
    requires
        record_ids(recs).no_duplicates(),
        0 <= j < recs.len(),
        0 <= j2 < recs.len(),
        recs[j2].0 == recs[j].0,
    ensures
        j2 == j,
{
    assert(record_ids(recs)[j] == recs[j].0);
    assert(record_ids(recs)[j2] == recs[j2].0);
}

/// The index can take out any record it lists.
pub proof fn lemma_indexes_remove_ok(n: IndexView, recs: Seq<(u64, JsonView)>, j: int)
    requires
        indexes(n, recs),
        0 <= j < recs.len(),
    ensures
        remove_ok(n, recs[j].1),
        flat(recs[j].1),
{
    let v = recs[j].1;
    let x = recs[j].0;
    match v {
        JsonView::Object(m) => {
            assert(n is Branch);
            assert forall|q: int| 0 <= q < m.len() && key_pos(node_children(n), (#[trigger] m[q]).0) is Some implies leaf_remove_ok(child_or_null(node_children(n), m[q].0), m[q].1) by {
                let f = m[q].0;
                lemma_key_pos(m, f);
                assert(field_value(v, f) == m[q].1);
                assert(select(n, f) == child_or_null(node_children(n), f));
                assert(leafish_wf(select(n, f))) by {
                    lemma_key_pos(node_children(n), f);
                }
                let val = m[q].1;
                if val is Array {
                    assert(some_array(recs, x, f));
                    assert(vec_at(n, f).contains(x));
                } else if !(val is Null) {
                    assert(leaves_ok(v) ==> (field_value(v, f) is Number ==> json_leaf(field_value(v, f)) is Some));
                    let k = json_leaf(val).unwrap();
                    assert(some_holds(recs, x, f, k));
                    lemma_lookup_reads_leaf(n, f, k);
                    assert(index_all_by_value(n, f, k).contains(x));
                    assert(leaf_bucket(select(n, f), k).len() > 0);
                    lemma_leaf_bucket_kind(select(n, f), k);
                }
            }
        },
        JsonView::Null => {},
        _ => {
            lemma_plain_record_listed(n, recs, j);
        },
    }
}

/// Removing a listed record keeps the index exact.
pub proof fn lemma_indexes_remove(n: IndexView, recs: Seq<(u64, JsonView)>, j: int)
    requires
        indexes(n, recs),
        0 <= j < recs.len(),
    ensures
        remove_ok(n, recs[j].1),
        indexes(node_remove(n, recs[j].0, recs[j].1), recs.remove(j)),
{
    lemma_indexes_remove_ok(n, recs, j);
    let v = recs[j].1;
    let i = recs[j].0;
    let n2 = node_remove(n, i, v);
    let recs2 = recs.remove(j);
    assert forall|q: int| 0 <= q < recs2.len() implies #[trigger] recs2[q] == recs[if q < j { q } else { q + 1 }] by {}
    // the new index is well formed
    match v {
        JsonView::Object(m) => {
            let ch = node_children(n);
            lemma_children_remove(ch, m, i, Seq::empty());
            let c2 = children_remove(ch, m, i);
            assert forall|q: int| 0 <= q < c2.len() implies leafish_wf((#[trigger] c2[q]).1) by {
                let key = c2[q].0;
                lemma_key_pos(c2, key);
                lemma_select_remove(n, v, i, key);
                lemma_leaf_remove(select(n, key), field_value(v, key), i, LeafKey::Int(0), 0);
            }
        },
        _ => {
            if !(n is Branch) {
                lemma_leaf_remove(n, v, i, LeafKey::Int(0), 0);
            }
        },
    }
    assert(node_wf(n2));
    assert(record_ids(recs2) =~= record_ids(recs).remove(j));
    assert(record_ids(recs2).no_duplicates()) by {
        let ids = record_ids(recs2);
        let old_ids = record_ids(recs);
        assert forall|a: int, b: int| 0 <= a < b < ids.len() implies ids[a] != ids[b] by {
            let a0 = if a < j { a } else { a + 1 };
            let b0 = if b < j { b } else { b + 1 };
            assert(ids[a] == old_ids[a0] && ids[b] == old_ids[b0]);
        }
    }
    assert forall|q: int| 0 <= q < recs2.len() implies flat((#[trigger] recs2[q]).1) && leaves_ok(recs2[q].1) by {
        let q0 = if q < j { q } else { q + 1 };
        assert(recs2[q] == recs[q0]);
    }
    assert forall|q: int| 0 <= q < recs2.len() && (#[trigger] recs2[q]).1 is Object implies n2 is Branch by {
        let q0 = if q < j { q } else { q + 1 };
        assert(recs2[q] == recs[q0]);
    }
    assert forall|q: int| 0 <= q < recs2.len() && n2 is Branch && !((#[trigger] recs2[q]).1 is Object) implies recs2[q].1 is Null by {
        let q0 = if q < j { q } else { q + 1 };
        assert(recs2[q] == recs[q0]);
        if !(n is Branch) && !(recs[q0].1 is Null) {
            lemma_plain_record_listed(n, recs, q0);
        }
    }
    assert forall|f: Seq<char>, k: LeafKey, x: u64|
        #[trigger] index_all_by_value(n2, f, k).contains(x) <==> some_holds(recs2, x, f, k) by {
        lemma_select_remove(n, v, i, f);
        lemma_leaf_remove(select(n, f), field_value(v, f), i, k, x);
        lemma_lookup_reads_leaf(n, f, k);
        lemma_lookup_reads_leaf(n2, f, k);
        if some_holds(recs2, x, f, k) {
            let q = choose|q: int| 0 <= q < recs2.len() && (#[trigger] recs2[q]).0 == x && holds_key(recs2[q].1, f, k);
            let q0 = if q < j { q } else { q + 1 };
            assert(recs2[q] == recs[q0]);
            assert(some_holds(recs, x, f, k));
            if x == i {
                lemma_unique_id(recs, j, q0);
            }
        }
        if index_all_by_value(n, f, k).contains(x) && !(x == i && holds_key(v, f, k)) {
            let q0 = choose|q: int| 0 <= q < recs.len() && (#[trigger] recs[q]).0 == x && holds_key(recs[q].1, f, k);
            assert(q0 != j);
            let q = if q0 < j { q0 } else { q0 - 1 };
            assert(recs2[q] == recs[q0]);
        }
        if x == i && !holds_key(v, f, k) && index_all_by_value(n, f, k).contains(x) {
            let q0 = choose|q: int| 0 <= q < recs.len() && (#[trigger] recs[q]).0 == x && holds_key(recs[q].1, f, k);
            lemma_unique_id(recs, j, q0);
        }
    }
    assert forall|f: Seq<char>, x: u64| #[trigger] vec_at(n2, f).contains(x) <==> some_array(recs2, x, f) by {
        lemma_select_remove(n, v, i, f);
        lemma_leaf_remove(select(n, f), field_value(v, f), i, LeafKey::Int(0), x);
        lemma_lookup_reads_leaf(n, f, LeafKey::Int(0));
        lemma_lookup_reads_leaf(n2, f, LeafKey::Int(0));
        if some_array(recs2, x, f) {
            let q = choose|q: int| 0 <= q < recs2.len() && (#[trigger] recs2[q]).0 == x && field_value(recs2[q].1, f) is Array;
            let q0 = if q < j { q } else { q + 1 };
            assert(recs2[q] == recs[q0]);
            assert(some_array(recs, x, f));
            if x == i {
                lemma_unique_id(recs, j, q0);
            }
        }
        if vec_at(n, f).contains(x) && !(x == i && field_value(v, f) is Array) {
            let q0 = choose|q: int| 0 <= q < recs.len() && (#[trigger] recs[q]).0 == x && field_value(recs[q].1, f) is Array;
            assert(q0 != j);
            let q = if q0 < j { q0 } else { q0 - 1 };
            assert(recs2[q] == recs[q0]);
        }
        if x == i && !(field_value(v, f) is Array) && vec_at(n, f).contains(x) {
            let q0 = choose|q: int| 0 <= q < recs.len() && (#[trigger] recs[q]).0 == x && field_value(recs[q].1, f) is Array;
            lemma_unique_id(recs, j, q0);
        }
    }
    assert forall|f: Seq<char>, k: LeafKey| #[trigger] index_all_by_value(n2, f, k).no_duplicates() by {
        lemma_select_remove(n, v, i, f);
        lemma_leaf_remove(select(n, f), field_value(v, f), i, k, 0);
        lemma_lookup_reads_leaf(n2, f, k);
    }
}


/// A lookup by value answers with a record whose field holds the key, and
/// answers with nothing only when no record's field holds it.
pub proof fn lemma_lookup_by_value(n: IndexView, recs: Seq<(u64, JsonView)>, f: Seq<char>, k: LeafKey)
    requires
        indexes(n, recs),
    ensures
        index_first_by_value(n, f, k) matches Some(x) ==> some_holds(recs, x, f, k),
        index_first_by_value(n, f, k) is None ==> forall|x: u64| !#[trigger] some_holds(recs, x, f, k),
        forall|x: u64| #[trigger] index_all_by_value(n, f, k).contains(x) <==> some_holds(recs, x, f, k),
        index_all_by_value(n, f, k).no_duplicates(),
{
    let b = index_all_by_value(n, f, k);
    if b.len() > 0 {
        assert(b.contains(b[0]));
    }
    if b.len() == 0 {
        assert forall|x: u64| !#[trigger] some_holds(recs, x, f, k) by {
            assert(!index_all_by_value(n, f, k).contains(x));
        }
    }
}

/// A lookup by range answers with records whose field holds a key in the
/// range, all of them for the lookup of all, and answers with nothing only
/// when no record's field holds a key in the range.
pub proof fn lemma_lookup_by_range(n: IndexView, recs: Seq<(u64, JsonView)>, f: Seq<char>, r: RangeView)
    requires
        indexes(n, recs),
    ensures
        forall|x: u64| #[trigger] index_all_by_range(n, f, r).contains(x) <==> some_in_range(recs, x, f, r),
        index_first_by_range(n, f, r) matches Some(x) ==> some_in_range(recs, x, f, r),
        index_first_by_range(n, f, r) is None ==> forall|x: u64| !#[trigger] some_in_range(recs, x, f, r),
        index_all_by_range(n, f, r).no_duplicates(),
{
    let s = selected_buckets(n, f);
    assert(leafish_wf(select(n, f))) by {
        lemma_key_pos(node_children(n), f);
    }
    assert(buckets_wf(s));
    // a key of the selected leaf lists exactly the records holding it
    assert forall|q: int, x: u64| 0 <= q < s.len() && #[trigger] s[q].1.contains(x) implies some_holds(recs, x, f, s[q].0) by {
        lemma_find_key(s, s[q].0);
        assert(bucket(s, s[q].0) == s[q].1);
        assert(index_all_by_value(n, f, s[q].0).contains(x));
    }
    assert forall|x: u64| #[trigger] index_all_by_range(n, f, r).contains(x) <==> some_in_range(recs, x, f, r) by {
        lemma_all_in_range(s, r, x);
        if some_in_range(recs, x, f, r) {
            let j = choose|j: int| 0 <= j < recs.len() && (#[trigger] recs[j]).0 == x && (json_leaf(field_value(recs[j].1, f)) matches Some(k) && in_range(k, r));
            let k = json_leaf(field_value(recs[j].1, f)).unwrap();
            assert(some_holds(recs, x, f, k));
            assert(index_all_by_value(n, f, k).contains(x));
            lemma_find_key(s, k);
            let q = find_key(s, k).unwrap();
            assert(s[q].0 == k && s[q].1.contains(x));
        }
        if index_all_by_range(n, f, r).contains(x) {
            let q = choose|q: int| 0 <= q < s.len() && in_range((#[trigger] s[q]).0, r) && s[q].1.contains(x);
            assert(some_holds(recs, x, f, s[q].0));
            let j = choose|j: int| 0 <= j < recs.len() && (#[trigger] recs[j]).0 == x && holds_key(recs[j].1, f, s[q].0);
            assert(recs[j].0 == x);
        }
    }
    assert forall|q1: int, q2: int, x: u64| 0 <= q1 < s.len() && 0 <= q2 < s.len() && q1 != q2
        && #[trigger] s[q1].1.contains(x) implies !#[trigger] s[q2].1.contains(x) by {
        if s[q2].1.contains(x) {
            assert(some_holds(recs, x, f, s[q1].0));
            assert(some_holds(recs, x, f, s[q2].0));
            let j1 = choose|j: int| 0 <= j < recs.len() && (#[trigger] recs[j]).0 == x && holds_key(recs[j].1, f, s[q1].0);
            let j2 = choose|j: int| 0 <= j < recs.len() && (#[trigger] recs[j]).0 == x && holds_key(recs[j].1, f, s[q2].0);
            assert(record_ids(recs)[j1] == x && record_ids(recs)[j2] == x);
            assert(j1 == j2);
            lemma_leaf_order(s[q1].0, s[q2].0, s[q2].0);
            if q1 < q2 {
                assert(leaf_lt(s[q1].0, s[q2].0));
            } else {
                assert(leaf_lt(s[q2].0, s[q1].0));
            }
        }
    }
    lemma_all_in_range_nodup(s, r);
    lemma_first_in_range(s, r);
    if let Some(x) = index_first_by_range(n, f, r) {
        let q = choose|q: int| 0 <= q < s.len() && in_range((#[trigger] s[q]).0, r) && s[q].1.contains(x);
        assert(some_holds(recs, x, f, s[q].0));
        let j = choose|j: int| 0 <= j < recs.len() && (#[trigger] recs[j]).0 == x && holds_key(recs[j].1, f, s[q].0);
        assert(recs[j].0 == x);
    } else {
        assert forall|x: u64| !#[trigger] some_in_range(recs, x, f, r) by {
            if some_in_range(recs, x, f, r) {
                let j = choose|j: int| 0 <= j < recs.len() && (#[trigger] recs[j]).0 == x && (json_leaf(field_value(recs[j].1, f)) matches Some(k) && in_range(k, r));
                let k = json_leaf(field_value(recs[j].1, f)).unwrap();
                assert(some_holds(recs, x, f, k));
                assert(index_all_by_value(n, f, k).contains(x));
                lemma_find_key(s, k);
                let q = find_key(s, k).unwrap();
                assert(s[q].1.contains(x));
            }
        }
    }
}

/// Buckets without duplicates and pairwise disjoint give a range answer
/// without duplicates.
pub proof fn lemma_all_in_range_nodup(s: Seq<(LeafKey, Seq<u64>)>, r: RangeView)
    requires
        buckets_wf(s),
        forall|q1: int, q2: int, x: u64| 0 <= q1 < s.len() && 0 <= q2 < s.len() && q1 != q2
            && #[trigger] s[q1].1.contains(x) ==> !#[trigger] s[q2].1.contains(x),
    ensures
        all_in_range(s, r).no_duplicates(),
    decreases s.len(),
{
    if s.len() > 0 {
        let t = s.drop_first();
        assert(buckets_wf(t)) by {
            assert forall|a: int, b: int| 0 <= a < b < t.len() implies leaf_lt(
                #[trigger] t[a].0,
                #[trigger] t[b].0,
            ) by {
                assert(t[a] == s[a + 1] && t[b] == s[b + 1]);
            }
            assert forall|a: int| 0 <= a < t.len() implies (#[trigger] t[a]).1.no_duplicates() by {
                assert(t[a] == s[a + 1]);
            }
        }
        assert forall|q1: int, q2: int, x: u64| 0 <= q1 < t.len() && 0 <= q2 < t.len() && q1 != q2
            && #[trigger] t[q1].1.contains(x) implies !#[trigger] t[q2].1.contains(x) by {
            assert(t[q1] == s[q1 + 1] && t[q2] == s[q2 + 1]);
        }
        lemma_all_in_range_nodup(t, r);
        let head = if in_range(s[0].0, r) {
            s[0].1
        } else {
            Seq::<u64>::empty()
        };
        let rest = all_in_range(t, r);
        assert(all_in_range(s, r) == head + rest);
        assert(head.no_duplicates());
        assert forall|a: int, b: int| 0 <= a < b < (head + rest).len() implies (head + rest)[a] != (head + rest)[b] by {
            if a < head.len() && b >= head.len() {
                let x = head[a];
                if rest[b - head.len()] == x {
                    assert(rest.contains(x));
                    lemma_all_in_range(t, r, x);
                    let q = choose|q: int| 0 <= q < t.len() && in_range((#[trigger] t[q]).0, r) && t[q].1.contains(x);
                    assert(t[q] == s[q + 1]);
                    assert(s[0].1.contains(x));
                }
            }
        }
    }
}

/// A flattened record that can be added holds only numbers that can be indexed.
pub proof fn lemma_add_ok_leaves_ok(n: IndexView, v: JsonView)
    requires
        flat(v),
        add_ok(n, v),
    ensures
        leaves_ok(v),
{
    assert forall|f: Seq<char>| (#[trigger] field_value(v, f)) is Number implies json_leaf(field_value(v, f)) is Some by {
        if let JsonView::Object(m) = v {
            lemma_key_pos(m, f);
            if let Some(p) = key_pos(m, f) {
                assert(leaf_add_ok(child_or_null(node_children(n), m[p].0), m[p].1));
            }
        }
    }
}
} // verus!
