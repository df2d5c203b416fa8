//! Documents grouped by the key they hold at one field, the keys kept in
//! increasing order. Each document is stored with a number that tells it
//! apart from every other document of the same tree.

use crate::json::{JsonValue, JsonView};
use crate::ordered::{in_range, leaf_lt, lemma_leaf_order, range_ok, IndexKey, KeyRange, LeafKey, RangeView};
use vstd::prelude::*;

verus! {

/// The models of stored (number, document) pairs.
pub open spec fn view_docs(s: Seq<(u64, JsonValue)>) -> Seq<(u64, JsonView)> {
    s.map_values(|d: (u64, JsonValue)| (d.0, d.1@))
}

/// The model of key buckets: each key with the models of its documents.
pub open spec fn view_buckets<K: IndexKey>(s: Seq<(K, Vec<(u64, JsonValue)>)>) -> Seq<
    (LeafKey, Seq<(u64, JsonView)>),
> {
    s.map_values(|b: (K, Vec<(u64, JsonValue)>)| (b.0.leaf(), view_docs(b.1@)))
}

/// Keys in strictly increasing order.
pub open spec fn keys_increasing<V>(s: Seq<(LeafKey, V)>) -> bool {
    forall|i: int, j: int| 0 <= i < j < s.len() ==> leaf_lt(#[trigger] s[i].0, #[trigger] s[j].0)
}

/// The number of leading keys that come before `k`.
pub open spec fn key_slot<V>(s: Seq<(LeafKey, V)>, k: LeafKey) -> int
    decreases s.len(),
{
    if s.len() == 0 {
        0
    } else if leaf_lt(s[0].0, k) {
        1 + key_slot(s.drop_first(), k)
    } else {
        0
    }
}

/// The position of key `k`, if present.
pub open spec fn key_at<V>(s: Seq<(LeafKey, V)>, k: LeafKey) -> Option<int> {
    let p = key_slot(s, k);
    if p < s.len() && s[p].0 == k {
        Some(p)
    } else {
        None
    }
}

/// The buckets after adding document `d` under key `k`, at the end of its
/// bucket; a new key gets a bucket of its own in its place.
pub open spec fn docs_push(s: Seq<(LeafKey, Seq<(u64, JsonView)>)>, k: LeafKey, d: (u64, JsonView)) -> Seq<
    (LeafKey, Seq<(u64, JsonView)>),
> {
    match key_at(s, k) {
        Some(p) => s.update(p, (k, s[p].1.push(d))),
        None => s.insert(key_slot(s, k), (k, seq![d])),
    }
}

/// The position of the first bucket that is not empty.
pub open spec fn first_full(s: Seq<(LeafKey, Seq<(u64, JsonView)>)>) -> Option<int>
    decreases s.len(),
{
    if s.len() == 0 {
        None
    } else if s[0].1.len() > 0 {
        Some(0)
    } else {
        match first_full(s.drop_first()) {
            Some(p) => Some(p + 1),
            None => None,
        }
    }
}

/// The first document of the first bucket that is not empty.
pub open spec fn first_doc(s: Seq<(LeafKey, Seq<(u64, JsonView)>)>) -> Option<(u64, JsonView)> {
    match first_full(s) {
        Some(p) => Some(s[p].1[0]),
        None => None,
    }
}

/// All documents, bucket after bucket.
pub open spec fn all_docs(s: Seq<(LeafKey, Seq<(u64, JsonView)>)>) -> Seq<(u64, JsonView)>
    decreases s.len(),
{
    if s.len() == 0 {
        Seq::empty()
    } else {
        s[0].1 + all_docs(s.drop_first())
    }
}

/// Taking the last document of the first bucket that is not empty: that
/// document, and the buckets without it.
pub open spec fn pop_doc(s: Seq<(LeafKey, Seq<(u64, JsonView)>)>) -> (Option<(u64, JsonView)>, Seq<
    (LeafKey, Seq<(u64, JsonView)>),
>) {
    match first_full(s) {
        Some(p) => (Some(s[p].1.last()), s.update(p, (s[p].0, s[p].1.drop_last()))),
        None => (None, s),
    }
}

/// A bucket without the documents numbered `x`, the others in their order.
pub open spec fn without_doc(b: Seq<(u64, JsonView)>, x: u64) -> Seq<(u64, JsonView)>
    decreases b.len(),
{
    if b.len() == 0 {
        b
    } else if b.last().0 != x {
        without_doc(b.drop_last(), x).push(b.last())
    } else {
        without_doc(b.drop_last(), x)
    }
}

/// The buckets with the documents numbered `x` taken out of the bucket of
/// key `k`.
pub open spec fn docs_retain(s: Seq<(LeafKey, Seq<(u64, JsonView)>)>, k: LeafKey, x: u64) -> Seq<
    (LeafKey, Seq<(u64, JsonView)>),
> {
    match key_at(s, k) {
        Some(p) => s.update(p, (s[p].0, without_doc(s[p].1, x))),
        None => s,
    }
}

/// `key_slot` counts exactly the keys before `k` when keys increase.
pub proof fn lemma_key_slot<V>(s: Seq<(LeafKey, V)>, k: LeafKey)
    requires
        keys_increasing(s),
    ensures
        0 <= key_slot(s, k) <= s.len(),
        forall|q: int| 0 <= q < key_slot(s, k) ==> leaf_lt(#[trigger] s[q].0, k),
        forall|q: int| key_slot(s, k) <= q < s.len() ==> !leaf_lt(#[trigger] s[q].0, k),
        forall|q: int| 0 <= q < s.len() && (#[trigger] s[q]).0 == k ==> key_at(s, k) == Some(q),
        key_at(s, k) is None ==> forall|q: int| 0 <= q < s.len() ==> (#[trigger] s[q]).0 != k,
    decreases s.len(),
{
    if s.len() > 0 {
        let t = s.drop_first();
        assert(keys_increasing(t)) by {
            assert forall|i: int, j: int| 0 <= i < j < t.len() implies leaf_lt(#[trigger] t[i].0, #[trigger] t[j].0) by {
                assert(t[i] == s[i + 1] && t[j] == s[j + 1]);
            }
        }
        lemma_key_slot(t, k);
        if leaf_lt(s[0].0, k) {
            assert forall|q: int| 0 <= q < key_slot(s, k) implies leaf_lt(#[trigger] s[q].0, k) by {
                if q > 0 {
                    assert(s[q] == t[q - 1]);
                }
            }
            assert forall|q: int| key_slot(s, k) <= q < s.len() implies !leaf_lt(#[trigger] s[q].0, k) by {
                assert(s[q] == t[q - 1]);
            }
        } else {
            assert forall|q: int| 0 <= q < s.len() implies !leaf_lt(#[trigger] s[q].0, k) by {
                if q > 0 {
                    lemma_leaf_order(s[0].0, s[q].0, k);
                    lemma_leaf_order(k, s[0].0, s[q].0);
                    lemma_leaf_order(s[q].0, k, s[0].0);
                    lemma_leaf_order(s[0].0, k, s[q].0);
                }
            }
        }
    }
    let p = key_slot(s, k);
    assert forall|q: int| 0 <= q < s.len() && (#[trigger] s[q]).0 == k implies key_at(s, k) == Some(q) by {
        lemma_leaf_order(k, k, k);
        if q < p {
            assert(leaf_lt(s[q].0, k));
        } else if q > p {
            lemma_leaf_order(s[p].0, k, k);
            assert(leaf_lt(s[p].0, s[q].0));
            assert(!leaf_lt(s[p].0, k));
        }
    }
}

/// The number of leading keys of `s` that come before `k`.
pub fn bucket_slot<K: IndexKey>(s: &Vec<(K, Vec<(u64, JsonValue)>)>, k: &K) -> (r: usize)
    ensures
        r == key_slot(view_buckets(s@), k.leaf()),
{
    let ghost v = view_buckets(s@);
    let mut i: usize = 0;
    assert(v.skip(0) =~= v);
    while i < s.len()
        invariant
            i <= s@.len(),
            v == view_buckets(s@),
            v.len() == s@.len(),
            key_slot(v, k.leaf()) == i + key_slot(v.skip(i as int), k.leaf()),
        decreases s@.len() - i,
    {
        assert(v.skip(i as int)[0] == v[i as int]);
        assert(v[i as int].0 == s@[i as int].0.leaf());
        if !s[i].0.less(k) {
            return i;
        }
        assert(v.skip(i as int).drop_first() =~= v.skip(i + 1));
        i = i + 1;
    }
    i
}

proof fn lemma_view_docs(s: Seq<(u64, JsonValue)>)
    ensures
        view_docs(s).len() == s.len(),
        forall|i: int| 0 <= i < s.len() ==> #[trigger] view_docs(s)[i] == (s[i].0, s[i].1@),
{
}

/// A copy of a stored document.
pub(crate) fn copy_doc(d: &(u64, JsonValue)) -> (r: (u64, JsonValue))
    ensures
        r.0 == d.0,
        r.1@ == d.1@,
{
    (d.0, d.1.copy())
}

/// Adds document `d` under key `k`, at the end of its bucket.
pub fn bucket_push<K: IndexKey>(s: &mut Vec<(K, Vec<(u64, JsonValue)>)>, k: K, d: (u64, JsonValue))
    requires
        keys_increasing(view_buckets(old(s)@)),
    ensures
        view_buckets(final(s)@) == docs_push(view_buckets(old(s)@), k.leaf(), (d.0, d.1@)),
        keys_increasing(view_buckets(final(s)@)),
{
    let ghost v = view_buckets(s@);
    let ghost kl = k.leaf();
    let ghost dv = (d.0, d.1@);
    proof {
        lemma_key_slot(v, kl);
    }
    let p = bucket_slot(s, &k);
    proof {
        if p < s@.len() {
            assert(v[p as int].0 == s@[p as int].0.leaf());
        }
    }
    if p < s.len() && s[p].0.same(&k) {
        let mut slot = (k.copy_key(), Vec::new());
        std::mem::swap(&mut slot, &mut s[p]);
        let ghost old_docs = slot.1@;
        slot.1.push(d);
        proof {
            assert(view_docs(slot.1@) =~= view_docs(old_docs).push(dv));
        }
        s.set(p, slot);
        proof {
            assert(key_at(v, kl) == Some(p as int));
            assert(view_buckets(s@) =~= v.update(p as int, (kl, v[p as int].1.push(dv))));
        }
    } else {
        let mut b: Vec<(u64, JsonValue)> = Vec::new();
        b.push(d);
        proof {
            assert(view_docs(b@) =~= seq![dv]);
            assert(key_at(v, kl) is None);
        }
        s.insert(p, (k, b));
        proof {
            assert(view_buckets(s@) =~= v.insert(p as int, (kl, seq![dv])));
        }
    }
    proof {
        let r = view_buckets(s@);
        if key_at(v, kl) is None {
            assert forall|q: int| p <= q < v.len() implies leaf_lt(kl, #[trigger] v[q].0) by {
                lemma_leaf_order(kl, v[q].0, kl);
                assert(v[q].0 != kl);
            }
            assert forall|a: int, b: int| 0 <= a < b < r.len() implies leaf_lt(#[trigger] r[a].0, #[trigger] r[b].0) by {
                if b < p {
                    assert(r[a] == v[a] && r[b] == v[b]);
                } else if b == p {
                    assert(r[a] == v[a]);
                } else if a < p {
                    assert(r[a] == v[a] && r[b] == v[b - 1]);
                    lemma_leaf_order(v[a].0, kl, v[b - 1].0);
                } else if a == p {
                    assert(r[b] == v[b - 1]);
                } else {
                    assert(r[a] == v[a - 1] && r[b] == v[b - 1]);
                }
            }
        } else {
            assert forall|a: int, b: int| 0 <= a < b < r.len() implies leaf_lt(#[trigger] r[a].0, #[trigger] r[b].0) by {
                assert(r[a].0 == v[a].0 && r[b].0 == v[b].0);
            }
        }
    }
}

/// `first_full` finds the first bucket that is not empty.
pub proof fn lemma_first_full(s: Seq<(LeafKey, Seq<(u64, JsonView)>)>)
    ensures
        first_full(s) matches Some(p) ==> 0 <= p < s.len() && s[p].1.len() > 0 && forall|q: int|
            0 <= q < p ==> (#[trigger] s[q]).1.len() == 0,
        first_full(s) is None ==> forall|q: int| 0 <= q < s.len() ==> (#[trigger] s[q]).1.len() == 0,
    decreases s.len(),
{
    if s.len() > 0 {
        let t = s.drop_first();
        lemma_first_full(t);
        assert forall|q: int| 0 < q < s.len() implies #[trigger] s[q] == t[q - 1] by {}
    }
}

/// The position of the first bucket that is not empty, if any.
pub(crate) fn first_full_pos<K: IndexKey>(s: &Vec<(K, Vec<(u64, JsonValue)>)>) -> (r: Option<usize>)
    ensures
        r matches Some(p) ==> first_full(view_buckets(s@)) == Some(p as int) && p < s@.len(),
        r is None ==> first_full(view_buckets(s@)) is None,
{
    let ghost v = view_buckets(s@);
    let mut i: usize = 0;
    assert(v.skip(0) =~= v);
    while i < s.len()
        invariant
            i <= s@.len(),
            v == view_buckets(s@),
            v.len() == s@.len(),
            first_full(v) == (match first_full(v.skip(i as int)) {
                Some(p) => Some(p + i),
                None => None,
            }),
        decreases s@.len() - i,
    {
        assert(v.skip(i as int)[0] == v[i as int]);
        proof {
            lemma_view_docs(s@[i as int].1@);
        }
        if s[i].1.len() > 0 {
            return Some(i);
        }
        assert(v.skip(i as int).drop_first() =~= v.skip(i + 1));
        i = i + 1;
    }
    None
}

/// A copy of the first document of the first bucket that is not empty.
pub fn get_primitive_from_map<K: IndexKey>(s: &Vec<(K, Vec<(u64, JsonValue)>)>) -> (r: Option<(u64, JsonValue)>)
    ensures
        r matches Some(d) ==> first_doc(view_buckets(s@)) == Some((d.0, d.1@)),
        r is None ==> first_doc(view_buckets(s@)) is None,
{
    match first_full_pos(s) {
        Some(p) => {
            proof {
                lemma_view_docs(s@[p as int].1@);
                lemma_first_full(view_buckets(s@));
            }
            Some(copy_doc(&s[p].1[0]))
        },
        None => None,
    }
}

/// Copies of all documents, bucket after bucket.
pub fn get_all_prims_from_map<K: IndexKey>(s: &Vec<(K, Vec<(u64, JsonValue)>)>) -> (r: Vec<(u64, JsonValue)>)
    ensures
        view_docs(r@) == all_docs(view_buckets(s@)),
{
    let ghost v = view_buckets(s@);
    let mut out: Vec<(u64, JsonValue)> = Vec::new();
    let mut i: usize = 0;
    assert(v.skip(0) =~= v);
    assert(view_docs(out@) + all_docs(v) =~= all_docs(v));
    while i < s.len()
        invariant
            i <= s@.len(),
            v == view_buckets(s@),
            v.len() == s@.len(),
            all_docs(v) == view_docs(out@) + all_docs(v.skip(i as int)),
        decreases s@.len() - i,
    {
        let b = &s[i].1;
        proof {
            assert(v.skip(i as int)[0] == v[i as int]);
            assert(v.skip(i as int).drop_first() =~= v.skip(i + 1));
            lemma_view_docs(b@);
        }
        let ghost before = out@;
        let mut j: usize = 0;
        while j < b.len()
            invariant
                j <= b@.len(),
                view_docs(out@) == view_docs(before) + view_docs(b@).take(j as int),
                view_docs(b@).len() == b@.len(),
                forall|q: int| 0 <= q < b@.len() ==> #[trigger] view_docs(b@)[q] == (b@[q].0, b@[q].1@),
            decreases b@.len() - j,
        {
            let ghost prev = out@;
            out.push(copy_doc(&b[j]));
            proof {
                lemma_view_docs(out@);
                lemma_view_docs(prev);
                assert(view_docs(out@) =~= view_docs(prev).push(view_docs(b@)[j as int]));
                assert(view_docs(b@).take(j + 1) =~= view_docs(b@).take(j as int).push(view_docs(b@)[j as int]));
            }
            j = j + 1;
        }
        proof {
            assert(view_docs(b@).take(b@.len() as int) =~= view_docs(b@));
            assert(v[i as int].1 == view_docs(b@));
            assert(all_docs(v.skip(i as int)) == v[i as int].1 + all_docs(v.skip(i + 1)));
            assert(view_docs(before) + v[i as int].1 + all_docs(v.skip(i + 1)) =~= view_docs(before) + (v[i as int].1 + all_docs(v.skip(i + 1))));
        }
        i = i + 1;
    }
    proof {
        assert(v.skip(s@.len() as int) =~= Seq::<(LeafKey, Seq<(u64, JsonView)>)>::empty());
        assert(view_docs(out@) + Seq::<(u64, JsonView)>::empty() =~= view_docs(out@));
    }
    out
}

/// Takes the last document of the first bucket that is not empty out of the
/// buckets; the keys stay.
pub fn remove_primitive_from_map<K: IndexKey>(s: &mut Vec<(K, Vec<(u64, JsonValue)>)>) -> (r: Option<(u64, JsonValue)>)
    requires
        keys_increasing(view_buckets(old(s)@)),
    ensures
        keys_increasing(view_buckets(final(s)@)),
        (match r {
            Some(d) => Some((d.0, d.1@)),
            None => None,
        }) == pop_doc(view_buckets(old(s)@)).0,
        view_buckets(final(s)@) == pop_doc(view_buckets(old(s)@)).1,
{
    let ghost v = view_buckets(s@);
    proof {
        lemma_first_full(v);
    }
    match first_full_pos(s) {
        Some(p) => {
            let mut slot = (s[p].0.copy_key(), Vec::new());
            std::mem::swap(&mut slot, &mut s[p]);
            let ghost old_docs = slot.1@;
            let d = slot.1.pop();
            proof {
                lemma_view_docs(old_docs);
                assert(view_docs(slot.1@) =~= view_docs(old_docs).drop_last());
            }
            s.set(p, slot);
            proof {
                let r = view_buckets(s@);
                assert(r =~= v.update(p as int, (v[p as int].0, v[p as int].1.drop_last())));
                assert forall|a: int, b: int| 0 <= a < b < r.len() implies leaf_lt(#[trigger] r[a].0, #[trigger] r[b].0) by {
                    assert(r[a].0 == v[a].0 && r[b].0 == v[b].0);
                }
            }
            d
        },
        None => None,
    }
}

/// Copies of the documents of bucket `b` not numbered `x`, in their order.
pub(crate) fn docs_without(b: &Vec<(u64, JsonValue)>, x: u64) -> (r: Vec<(u64, JsonValue)>)
    ensures
        view_docs(r@) == without_doc(view_docs(b@), x),
{
    let ghost bv = view_docs(b@);
    proof {
        lemma_view_docs(b@);
    }
    let mut out: Vec<(u64, JsonValue)> = Vec::new();
    let mut i: usize = 0;
    assert(bv.take(0) =~= Seq::<(u64, JsonView)>::empty());
    while i < b.len()
        invariant
            i <= b@.len(),
            bv == view_docs(b@),
            bv.len() == b@.len(),
            forall|q: int| 0 <= q < b@.len() ==> #[trigger] bv[q] == (b@[q].0, b@[q].1@),
            view_docs(out@) == without_doc(bv.take(i as int), x),
        decreases b@.len() - i,
    {
        proof {
            assert(bv.take(i + 1).drop_last() =~= bv.take(i as int));
            assert(bv.take(i + 1).last() == bv[i as int]);
        }
        if b[i].0 != x {
            let ghost prev = out@;
            out.push(copy_doc(&b[i]));
            proof {
                lemma_view_docs(out@);
                lemma_view_docs(prev);
                assert(view_docs(out@) =~= view_docs(prev).push(bv[i as int]));
            }
        }
        i = i + 1;
    }
    proof {
        assert(bv.take(b@.len() as int) =~= bv);
    }
    out
}

/// Takes the documents numbered `x` out of the bucket of key `k`.
pub fn bucket_retain<K: IndexKey>(s: &mut Vec<(K, Vec<(u64, JsonValue)>)>, k: &K, x: u64)
    requires
        keys_increasing(view_buckets(old(s)@)),
    ensures
        keys_increasing(view_buckets(final(s)@)),
        view_buckets(final(s)@) == docs_retain(view_buckets(old(s)@), k.leaf(), x),
{
    let ghost v = view_buckets(s@);
    let ghost kl = k.leaf();
    proof {
        lemma_key_slot(v, kl);
    }
    let p = bucket_slot(s, k);
    proof {
        if p < s@.len() {
            assert(v[p as int].0 == s@[p as int].0.leaf());
        }
    }
    if p < s.len() && s[p].0.same(k) {
        let mut slot = (k.copy_key(), Vec::new());
        std::mem::swap(&mut slot, &mut s[p]);
        let kept = docs_without(&slot.1, x);
        s.set(p, (slot.0, kept));
        proof {
            let r = view_buckets(s@);
            assert(key_at(v, kl) == Some(p as int));
            assert(r =~= v.update(p as int, (v[p as int].0, without_doc(v[p as int].1, x))));
            assert forall|a: int, b: int| 0 <= a < b < r.len() implies leaf_lt(#[trigger] r[a].0, #[trigger] r[b].0) by {
                assert(r[a].0 == v[a].0 && r[b].0 == v[b].0);
            }
        }
    } else {
        proof {
            assert(key_at(v, kl) is None);
        }
    }
}

/// The position of the first bucket whose key lies in `r` and that is not
/// empty.
pub open spec fn first_full_in(s: Seq<(LeafKey, Seq<(u64, JsonView)>)>, r: RangeView) -> Option<int>
    decreases s.len(),
{
    if s.len() == 0 {
        None
    } else if in_range(s[0].0, r) && s[0].1.len() > 0 {
        Some(0)
    } else {
        match first_full_in(s.drop_first(), r) {
            Some(p) => Some(p + 1),
            None => None,
        }
    }
}

/// The documents of the buckets whose key lies in `r`, bucket after bucket.
pub open spec fn docs_in_range(s: Seq<(LeafKey, Seq<(u64, JsonView)>)>, r: RangeView) -> Seq<(u64, JsonView)>
    decreases s.len(),
{
    if s.len() == 0 {
        Seq::empty()
    } else {
        (if in_range(s[0].0, r) {
            s[0].1
        } else {
            Seq::empty()
        }) + docs_in_range(s.drop_first(), r)
    }
}

/// The buckets with those whose key lies in `r` emptied.
pub open spec fn drain_range(s: Seq<(LeafKey, Seq<(u64, JsonView)>)>, r: RangeView) -> Seq<(LeafKey, Seq<(u64, JsonView)>)> {
    Seq::new(s.len(), |i: int| if in_range(s[i].0, r) {
        (s[i].0, Seq::<(u64, JsonView)>::empty())
    } else {
        s[i]
    })
}

pub proof fn lemma_first_full_in(s: Seq<(LeafKey, Seq<(u64, JsonView)>)>, r: RangeView)
    ensures
        first_full_in(s, r) matches Some(p) ==> 0 <= p < s.len() && in_range(s[p].0, r) && s[p].1.len() > 0,
    decreases s.len(),
{
    if s.len() > 0 {
        lemma_first_full_in(s.drop_first(), r);
    }
}

/// The position of the first bucket in range that is not empty, if any.
fn first_full_in_pos<K: IndexKey>(s: &Vec<(K, Vec<(u64, JsonValue)>)>, range: &KeyRange<K>) -> (r: Option<usize>)
    ensures
        r matches Some(p) ==> first_full_in(view_buckets(s@), range.view_range()) == Some(p as int) && p < s@.len(),
        r is None ==> first_full_in(view_buckets(s@), range.view_range()) is None,
{
    let ghost v = view_buckets(s@);
    let ghost rv = range.view_range();
    let mut i: usize = 0;
    assert(v.skip(0) =~= v);
    while i < s.len()
        invariant
            i <= s@.len(),
            v == view_buckets(s@),
            v.len() == s@.len(),
            rv == range.view_range(),
            first_full_in(v, rv) == (match first_full_in(v.skip(i as int), rv) {
                Some(p) => Some(p + i),
                None => None,
            }),
        decreases s@.len() - i,
    {
        assert(v.skip(i as int)[0] == v[i as int]);
        proof {
            lemma_view_docs(s@[i as int].1@);
        }
        if range.contains(&s[i].0) && s[i].1.len() > 0 {
            return Some(i);
        }
        assert(v.skip(i as int).drop_first() =~= v.skip(i + 1));
        i = i + 1;
    }
    None
}

/// A copy of the first document of the first bucket in `range` that is not
/// empty.
pub fn get_primitive_range<K: IndexKey>(s: &Vec<(K, Vec<(u64, JsonValue)>)>, range: &KeyRange<K>) -> (r: Option<(u64, JsonValue)>)
    requires
        range_ok(range.view_range()),
    ensures
        r matches Some(d) ==> first_full_in(view_buckets(s@), range.view_range()) matches Some(p)
            && view_buckets(s@)[p].1[0] == (d.0, d.1@),
        r is None ==> first_full_in(view_buckets(s@), range.view_range()) is None,
{
    match first_full_in_pos(s, range) {
        Some(p) => {
            proof {
                lemma_view_docs(s@[p as int].1@);
                lemma_first_full_in(view_buckets(s@), range.view_range());
            }
            Some(copy_doc(&s[p].1[0]))
        },
        None => None,
    }
}

/// Copies of the documents of the buckets in `range`, bucket after bucket.
pub fn get_all_prims_range<K: IndexKey>(s: &Vec<(K, Vec<(u64, JsonValue)>)>, range: &KeyRange<K>) -> (r: Vec<(u64, JsonValue)>)
    requires
        range_ok(range.view_range()),
    ensures
        view_docs(r@) == docs_in_range(view_buckets(s@), range.view_range()),
{
    let ghost v = view_buckets(s@);
    let ghost rv = range.view_range();
    let mut out: Vec<(u64, JsonValue)> = Vec::new();
    let mut i: usize = 0;
    assert(v.skip(0) =~= v);
    assert(view_docs(out@) + docs_in_range(v, rv) =~= docs_in_range(v, rv));
    while i < s.len()
        invariant
            i <= s@.len(),
            v == view_buckets(s@),
            v.len() == s@.len(),
            rv == range.view_range(),
            docs_in_range(v, rv) == view_docs(out@) + docs_in_range(v.skip(i as int), rv),
        decreases s@.len() - i,
    {
        let b = &s[i].1;
        proof {
            assert(v.skip(i as int)[0] == v[i as int]);
            assert(v.skip(i as int).drop_first() =~= v.skip(i + 1));
            lemma_view_docs(b@);
        }
        let ghost before = out@;
        if range.contains(&s[i].0) {
            let mut j: usize = 0;
            while j < b.len()
                invariant
                    j <= b@.len(),
                    view_docs(out@) == view_docs(before) + view_docs(b@).take(j as int),
                    view_docs(b@).len() == b@.len(),
                    forall|q: int| 0 <= q < b@.len() ==> #[trigger] view_docs(b@)[q] == (b@[q].0, b@[q].1@),
                decreases b@.len() - j,
            {
                let ghost prev = out@;
                out.push(copy_doc(&b[j]));
                proof {
                    lemma_view_docs(out@);
                    lemma_view_docs(prev);
                    assert(view_docs(out@) =~= view_docs(prev).push(view_docs(b@)[j as int]));
                    assert(view_docs(b@).take(j + 1) =~= view_docs(b@).take(j as int).push(view_docs(b@)[j as int]));
                }
                j = j + 1;
            }
            proof {
                assert(view_docs(b@).take(b@.len() as int) =~= view_docs(b@));
                assert(v[i as int].1 == view_docs(b@));
                assert(view_docs(before) + v[i as int].1 + docs_in_range(v.skip(i + 1), rv) =~= view_docs(before) + (v[i as int].1 + docs_in_range(v.skip(i + 1), rv)));
            }
        } else {
            proof {
                assert(Seq::<(u64, JsonView)>::empty() + docs_in_range(v.skip(i + 1), rv) =~= docs_in_range(v.skip(i + 1), rv));
            }
        }
        i = i + 1;
    }
    proof {
        assert(v.skip(s@.len() as int) =~= Seq::<(LeafKey, Seq<(u64, JsonView)>)>::empty());
        assert(view_docs(out@) + Seq::<(u64, JsonView)>::empty() =~= view_docs(out@));
    }
    out
}

/// Takes the last document of the first bucket in `range` that is not empty
/// out of the buckets.
pub fn remove_primitive_range<K: IndexKey>(s: &mut Vec<(K, Vec<(u64, JsonValue)>)>, range: &KeyRange<K>) -> (r: Option<(u64, JsonValue)>)
    requires
        keys_increasing(view_buckets(old(s)@)),
        range_ok(range.view_range()),
    ensures
        keys_increasing(view_buckets(final(s)@)),
        (match first_full_in(view_buckets(old(s)@), range.view_range()) {
            Some(p) => r matches Some(d) && (d.0, d.1@) == view_buckets(old(s)@)[p].1.last()
                && view_buckets(final(s)@) == view_buckets(old(s)@).update(p, (view_buckets(old(s)@)[p].0, view_buckets(old(s)@)[p].1.drop_last())),
            None => r is None && final(s)@ == old(s)@,
        }),
{
    let ghost v = view_buckets(s@);
    proof {
        lemma_first_full_in(v, range.view_range());
    }
    match first_full_in_pos(s, range) {
        Some(p) => {
            let mut slot = (s[p].0.copy_key(), Vec::new());
            std::mem::swap(&mut slot, &mut s[p]);
            let ghost old_docs = slot.1@;
            let d = slot.1.pop();
            proof {
                lemma_view_docs(old_docs);
                assert(view_docs(slot.1@) =~= view_docs(old_docs).drop_last());
            }
            s.set(p, slot);
            proof {
                let r = view_buckets(s@);
                assert(r =~= v.update(p as int, (v[p as int].0, v[p as int].1.drop_last())));
                assert forall|a: int, b: int| 0 <= a < b < r.len() implies leaf_lt(#[trigger] r[a].0, #[trigger] r[b].0) by {
                    assert(r[a].0 == v[a].0 && r[b].0 == v[b].0);
                }
            }
            d
        },
        None => None,
    }
}

/// Takes all documents of the buckets in `range` out, bucket after bucket;
/// the keys stay, with empty buckets.
pub fn remove_all_prims_range<K: IndexKey>(s: &mut Vec<(K, Vec<(u64, JsonValue)>)>, range: &KeyRange<K>) -> (r: Vec<(u64, JsonValue)>)
    requires
        keys_increasing(view_buckets(old(s)@)),
        range_ok(range.view_range()),
    ensures
        keys_increasing(view_buckets(final(s)@)),
        view_docs(r@) == docs_in_range(view_buckets(old(s)@), range.view_range()),
        view_buckets(final(s)@) == drain_range(view_buckets(old(s)@), range.view_range()),
{
    let out = get_all_prims_range(s, range);
    let ghost v = view_buckets(s@);
    let ghost rv = range.view_range();
    let mut i: usize = 0;
    while i < s.len()
        invariant
            i <= s@.len(),
            v.len() == s@.len(),
            rv == range.view_range(),
            forall|q: int| 0 <= q < s@.len() ==> (#[trigger] view_buckets(s@)[q]).0 == v[q].0,
            forall|q: int| 0 <= q < i ==> #[trigger] view_buckets(s@)[q] == drain_range(v, rv)[q],
            forall|q: int| i <= q < s@.len() ==> #[trigger] view_buckets(s@)[q] == v[q],
        decreases s@.len() - i,
    {
        if range.contains(&s[i].0) {
            let ghost before = view_buckets(s@);
            assert(before[i as int] == v[i as int]);
            assert(before[i as int].0 == s@[i as int].0.leaf());
            let mut slot = (s[i].0.copy_key(), Vec::new());
            std::mem::swap(&mut slot, &mut s[i]);
            assert(slot.0.leaf() == v[i as int].0);
            s.set(i, (slot.0, Vec::new()));
            proof {
                assert(view_docs(Seq::<(u64, JsonValue)>::empty()) =~= Seq::<(u64, JsonView)>::empty());
                assert(view_buckets(s@) =~= before.update(i as int, (v[i as int].0, Seq::<(u64, JsonView)>::empty())));
            }
        }
        i = i + 1;
    }
    proof {
        let r = view_buckets(s@);
        assert(r =~= drain_range(v, rv));
        assert forall|a: int, b: int| 0 <= a < b < r.len() implies leaf_lt(#[trigger] r[a].0, #[trigger] r[b].0) by {
            assert(r[a].0 == v[a].0 && r[b].0 == v[b].0);
        }
    }
    out
}

} // verus!
