//! The ordered index of one field: for each key, in increasing key order,
//! the record numbers of the records whose field holds that key.

use crate::collections::{
    index_set_get, index_set_insert, index_set_items, index_set_len, index_set_new,
    index_set_remove,
};
use crate::ordered::{in_range, leaf_lt, lemma_leaf_order, IndexKey, KeyRange, LeafKey, RangeView};
use indexmap::IndexSet;
use vstd::prelude::*;

verus! {

/// Keys in strictly increasing order, and no record number twice in a bucket.
pub open spec fn buckets_wf(s: Seq<(LeafKey, Seq<u64>)>) -> bool {
    &&& forall|i: int, j: int| 0 <= i < j < s.len() ==> leaf_lt(#[trigger] s[i].0, #[trigger] s[j].0)
    &&& forall|i: int| 0 <= i < s.len() ==> (#[trigger] s[i]).1.no_duplicates()
}

/// The number of leading keys that come before `k`.
pub open spec fn lower_pos(s: Seq<(LeafKey, Seq<u64>)>, k: LeafKey) -> int
    decreases s.len(),
{
    if s.len() == 0 {
        0
    } else if leaf_lt(s[0].0, k) {
        1 + lower_pos(s.drop_first(), k)
    } else {
        0
    }
}

/// The position of key `k`, if it is present.
pub open spec fn find_key(s: Seq<(LeafKey, Seq<u64>)>, k: LeafKey) -> Option<int> {
    let p = lower_pos(s, k);
    if p < s.len() && s[p].0 == k {
        Some(p)
    } else {
        None
    }
}

/// The record numbers under key `k` (empty when `k` is absent).
pub open spec fn bucket(s: Seq<(LeafKey, Seq<u64>)>, k: LeafKey) -> Seq<u64> {
    match find_key(s, k) {
        Some(p) => s[p].1,
        None => Seq::empty(),
    }
}

/// Adding `i` to an insertion-ordered set.
pub open spec fn set_insert(b: Seq<u64>, i: u64) -> Seq<u64> {
    if b.contains(i) {
        b
    } else {
        b.push(i)
    }
}

/// Removing `i` from an insertion-ordered set by moving the last item into
/// its place.
pub open spec fn set_swap_remove(b: Seq<u64>, i: u64) -> Seq<u64> {
    if b.contains(i) {
        b.update(b.index_of(i), b.last()).drop_last()
    } else {
        b
    }
}

/// The index after recording that record `i` holds key `k`.
pub open spec fn buckets_add(s: Seq<(LeafKey, Seq<u64>)>, k: LeafKey, i: u64) -> Seq<
    (LeafKey, Seq<u64>),
> {
    let p = lower_pos(s, k);
    if p < s.len() && s[p].0 == k {
        s.update(p, (k, set_insert(s[p].1, i)))
    } else {
        s.insert(p, (k, seq![i]))
    }
}

/// The index after forgetting that record `i` holds key `k`. The key stays,
/// possibly with an empty bucket.
pub open spec fn buckets_remove(s: Seq<(LeafKey, Seq<u64>)>, k: LeafKey, i: u64) -> Seq<
    (LeafKey, Seq<u64>),
> {
    match find_key(s, k) {
        Some(p) => s.update(p, (s[p].0, set_swap_remove(s[p].1, i))),
        None => s,
    }
}

/// The first record under key `k`.
pub open spec fn first_by_value(s: Seq<(LeafKey, Seq<u64>)>, k: LeafKey) -> Option<u64> {
    if bucket(s, k).len() > 0 {
        Some(bucket(s, k)[0])
    } else {
        None
    }
}

/// The first record of the first key in range `r` whose bucket is not empty.
pub open spec fn first_in_range(s: Seq<(LeafKey, Seq<u64>)>, r: RangeView) -> Option<u64>
    decreases s.len(),
{
    if s.len() == 0 {
        None
    } else if in_range(s[0].0, r) && s[0].1.len() > 0 {
        Some(s[0].1[0])
    } else {
        first_in_range(s.drop_first(), r)
    }
}

/// The records of all keys in range `r`, key by key in increasing order.
pub open spec fn all_in_range(s: Seq<(LeafKey, Seq<u64>)>, r: RangeView) -> Seq<u64>
    decreases s.len(),
{
    if s.len() == 0 {
        Seq::empty()
    } else {
        (if in_range(s[0].0, r) {
            s[0].1
        } else {
            Seq::empty()
        }) + all_in_range(s.drop_first(), r)
    }
}

/// `lower_pos` counts exactly the keys before `k`.
pub proof fn lemma_lower_pos(s: Seq<(LeafKey, Seq<u64>)>, k: LeafKey)
    requires
        buckets_wf(s),
    ensures
        0 <= lower_pos(s, k) <= s.len(),
        forall|q: int| 0 <= q < lower_pos(s, k) ==> leaf_lt(#[trigger] s[q].0, k),
        forall|q: int| lower_pos(s, k) <= q < s.len() ==> !leaf_lt(#[trigger] s[q].0, k),
    decreases s.len(),
{
    if s.len() > 0 {
        let t = s.drop_first();
        assert(buckets_wf(t)) by {
            assert forall|i: int, j: int| 0 <= i < j < t.len() implies leaf_lt(
                #[trigger] t[i].0,
                #[trigger] t[j].0,
            ) by {
                assert(t[i] == s[i + 1] && t[j] == s[j + 1]);
            }
            assert forall|i: int| 0 <= i < t.len() implies (#[trigger] t[i]).1.no_duplicates() by {
                assert(t[i] == s[i + 1]);
            }
        }
        lemma_lower_pos(t, k);
        if leaf_lt(s[0].0, k) {
            assert forall|q: int| 0 <= q < lower_pos(s, k) implies leaf_lt(#[trigger] s[q].0, k) by {
                if q > 0 {
                    assert(s[q] == t[q - 1]);
                }
            }
            assert forall|q: int| lower_pos(s, k) <= q < s.len() implies !leaf_lt(
                #[trigger] s[q].0,
                k,
            ) by {
                assert(s[q] == t[q - 1]);
            }
        } else {
            assert forall|q: int| 0 <= q < s.len() implies !leaf_lt(#[trigger] s[q].0, k) by {
                if q > 0 {
                    lemma_leaf_order(s[0].0, s[q].0, k);
                    lemma_leaf_order(k, s[0].0, s[q].0);
                    lemma_leaf_order(s[q].0, k, s[0].0);
                    lemma_leaf_order(s[0].0, k, s[q].0);
                }
            }
        }
    }
}

/// In a well-formed index, `find_key` finds exactly the position that holds `k`.
pub proof fn lemma_find_key(s: Seq<(LeafKey, Seq<u64>)>, k: LeafKey)
    requires
        buckets_wf(s),
    ensures
        find_key(s, k) matches Some(p) ==> 0 <= p < s.len() && s[p].0 == k,
        find_key(s, k) is None ==> forall|q: int| 0 <= q < s.len() ==> (#[trigger] s[q]).0 != k,
        forall|q: int| 0 <= q < s.len() && (#[trigger] s[q]).0 == k ==> find_key(s, k) == Some(q),
{
    lemma_lower_pos(s, k);
    let p = lower_pos(s, k);
    assert forall|q: int| 0 <= q < s.len() && (#[trigger] s[q]).0 == k implies find_key(s, k)
        == Some(q) by {
        lemma_leaf_order(k, k, k);
        if q < p {
            assert(leaf_lt(s[q].0, k));
        } else if q > p {
            lemma_leaf_order(s[p].0, k, k);
            assert(leaf_lt(s[p].0, s[q].0));
            assert(!leaf_lt(s[p].0, k));
        }
    }
}

/// The index of one field, with keys of type `K`.
pub struct OrderedIndex<K> {
    entries: Vec<(K, IndexSet<u64>)>,
}

impl<K: IndexKey> View for OrderedIndex<K> {
    type V = Seq<(LeafKey, Seq<u64>)>;

    closed spec fn view(&self) -> Seq<(LeafKey, Seq<u64>)> {
        self.entries@.map_values(|p: (K, IndexSet<u64>)| (p.0.leaf(), index_set_items(p.1)))
    }
}

impl<K: IndexKey> OrderedIndex<K> {
    /// An index with no keys.
    pub fn new() -> (r: OrderedIndex<K>)
        ensures
            r@ == Seq::<(LeafKey, Seq<u64>)>::empty(),
    {
        let r = OrderedIndex { entries: Vec::new() };
        assert(r@ =~= Seq::<(LeafKey, Seq<u64>)>::empty());
        r
    }

    /// The number of leading keys that come before `key`.
    fn position(&self, key: &K) -> (r: usize)
        ensures
            r == lower_pos(self@, key.leaf()),
    {
        let mut i: usize = 0;
        assert(self@.skip(0) =~= self@);
        while i < self.entries.len()
            invariant
                i <= self.entries@.len(),
                self@.len() == self.entries@.len(),
                lower_pos(self@, key.leaf()) == i + lower_pos(self@.skip(i as int), key.leaf()),
            decreases self.entries@.len() - i,
        {
            assert(self@.skip(i as int)[0] == self@[i as int]);
            assert(self@[i as int].0 == self.entries@[i as int].0.leaf());
            if !self.entries[i].0.less(key) {
                return i;
            }
            assert(self@.skip(i as int).drop_first() =~= self@.skip(i + 1));
            i = i + 1;
        }
        i
    }
}


/// Adding a fresh item keeps an insertion-ordered set free of duplicates.
pub proof fn lemma_set_insert(b: Seq<u64>, i: u64)
    requires
        b.no_duplicates(),
    ensures
        set_insert(b, i).no_duplicates(),
        forall|x: u64| set_insert(b, i).contains(x) <==> b.contains(x) || x == i,
{
    if !b.contains(i) {
        assert forall|x: u64| set_insert(b, i).contains(x) <==> b.contains(x) || x == i by {
            if b.contains(x) {
                let q = choose|q: int| 0 <= q < b.len() && b[q] == x;
                assert(set_insert(b, i)[q] == x);
            }
            if x == i {
                assert(set_insert(b, i)[b.len() as int] == x);
            }
        }
    }
}

/// Removing an item keeps an insertion-ordered set free of duplicates and
/// takes exactly that item out.
pub proof fn lemma_set_swap_remove(b: Seq<u64>, i: u64)
    requires
        b.no_duplicates(),
    ensures
        set_swap_remove(b, i).no_duplicates(),
        forall|x: u64| set_swap_remove(b, i).contains(x) <==> b.contains(x) && x != i,
{
    if b.contains(i) {
        let p = b.index_of(i);
        let r = set_swap_remove(b, i);
        let n = b.len() - 1;
        assert(r.len() == n);
        assert forall|x: int, y: int| 0 <= x < y < r.len() implies r[x] != r[y] by {
            let bx = if x == p { n } else { x };
            let by_ = if y == p { n } else { y };
            assert(r[x] == b[bx]);
            assert(r[y] == b[by_]);
        }
        assert forall|x: u64| r.contains(x) <==> b.contains(x) && x != i by {
            if r.contains(x) {
                let q = choose|q: int| 0 <= q < r.len() && r[q] == x;
                let bq = if q == p { n } else { q };
                assert(r[q] == b[bq]);
                assert(bq != p);
            }
            if b.contains(x) && x != i {
                let q = choose|q: int| 0 <= q < b.len() && b[q] == x;
                assert(q != p);
                if q == n {
                    assert(r[p] == x);
                } else {
                    assert(r[q] == x);
                }
            }
        }
    }
}

/// Recording a key keeps the index well formed.
pub proof fn lemma_buckets_add_wf(s: Seq<(LeafKey, Seq<u64>)>, k: LeafKey, i: u64)
    requires
        buckets_wf(s),
    ensures
        buckets_wf(buckets_add(s, k, i)),
{
    lemma_lower_pos(s, k);
    lemma_find_key(s, k);
    let p = lower_pos(s, k);
    let r = buckets_add(s, k, i);
    if p < s.len() && s[p].0 == k {
        lemma_set_insert(s[p].1, i);
        assert forall|a: int, b: int| 0 <= a < b < r.len() implies leaf_lt(
            #[trigger] r[a].0,
            #[trigger] r[b].0,
        ) by {
            assert(r[a].0 == s[a].0 && r[b].0 == s[b].0);
        }
        assert forall|a: int| 0 <= a < r.len() implies (#[trigger] r[a]).1.no_duplicates() by {
            if a != p {
                assert(r[a] == s[a]);
            }
        }
    } else {
        assert forall|q: int| p <= q < s.len() implies leaf_lt(k, #[trigger] s[q].0) by {
            lemma_leaf_order(k, s[q].0, k);
            assert(s[q].0 != k);
        }
        assert forall|a: int, b: int| 0 <= a < b < r.len() implies leaf_lt(
            #[trigger] r[a].0,
            #[trigger] r[b].0,
        ) by {
            if b < p {
                assert(r[a] == s[a] && r[b] == s[b]);
            } else if b == p {
                assert(r[a] == s[a]);
            } else if a < p {
                assert(r[a] == s[a] && r[b] == s[b - 1]);
                lemma_leaf_order(s[a].0, k, s[b - 1].0);
            } else if a == p {
                assert(r[b] == s[b - 1]);
            } else {
                assert(r[a] == s[a - 1] && r[b] == s[b - 1]);
            }
        }
        assert forall|a: int| 0 <= a < r.len() implies (#[trigger] r[a]).1.no_duplicates() by {
            if a < p {
                assert(r[a] == s[a]);
            } else if a > p {
                assert(r[a] == s[a - 1]);
            } else {
                assert(r[a].1 =~= seq![i]);
            }
        }
    }
}

/// Forgetting a key keeps the index well formed.
pub proof fn lemma_buckets_remove_wf(s: Seq<(LeafKey, Seq<u64>)>, k: LeafKey, i: u64)
    requires
        buckets_wf(s),
    ensures
        buckets_wf(buckets_remove(s, k, i)),
{
    lemma_find_key(s, k);
    let r = buckets_remove(s, k, i);
    if let Some(p) = find_key(s, k) {
        lemma_set_swap_remove(s[p].1, i);
        assert forall|a: int, b: int| 0 <= a < b < r.len() implies leaf_lt(
            #[trigger] r[a].0,
            #[trigger] r[b].0,
        ) by {
            assert(r[a].0 == s[a].0 && r[b].0 == s[b].0);
        }
        assert forall|a: int| 0 <= a < r.len() implies (#[trigger] r[a]).1.no_duplicates() by {
            if a != p {
                assert(r[a] == s[a]);
            }
        }
    }
}

impl<K: IndexKey> OrderedIndex<K> {
    /// Records that record `index` holds `key`.
    pub fn add(&mut self, key: K, index: u64)
        requires
            buckets_wf(old(self)@),
        ensures
            buckets_wf(final(self)@),
            final(self)@ == buckets_add(old(self)@, key.leaf(), index),
    {
        proof {
            lemma_buckets_add_wf(self@, key.leaf(), index);
            lemma_lower_pos(self@, key.leaf());
            assert(self@.len() == self.entries@.len());
        }
        let p = self.position(&key);
        proof {
            if p < self.entries@.len() {
                assert(self@[p as int].0 == self.entries@[p as int].0.leaf());
            }
        }
        if p < self.entries.len() && self.entries[p].0.same(&key) {
            let ghost before = self.entries@;
            index_set_insert(&mut self.entries[p].1, index);
            proof {
                assert(self.entries@[p as int].0 == before[p as int].0);
                assert(self@ =~= buckets_add(old(self)@, key.leaf(), index));
            }
        } else {
            let mut set = index_set_new();
            index_set_insert(&mut set, index);
            let ghost k = key.leaf();
            self.entries.insert(p, (key, set));
            proof {
                assert(index_set_items(set) =~= seq![index]);
                assert(self@ =~= old(self)@.insert(p as int, (k, seq![index])));
                assert(self@ =~= buckets_add(old(self)@, k, index));
            }
        }
    }
}

/// The items of an insertion-ordered set, in order.
pub fn set_items(s: &IndexSet<u64>) -> (r: Vec<u64>)
    ensures
        r@ == index_set_items(*s),
{
    let mut out: Vec<u64> = Vec::new();
    let n = index_set_len(s);
    let mut i: usize = 0;
    while i < n
        invariant
            i <= n,
            n == index_set_items(*s).len(),
            out@ == index_set_items(*s).take(i as int),
        decreases n - i,
    {
        let v = index_set_get(s, i);
        out.push(v.unwrap());
        proof {
            assert(index_set_items(*s).take(i + 1) =~= index_set_items(*s).take(i as int).push(
                index_set_items(*s)[i as int],
            ));
        }
        i = i + 1;
    }
    assert(index_set_items(*s).take(n as int) =~= index_set_items(*s));
    out
}

impl<K: IndexKey> OrderedIndex<K> {
    /// The position of `key`, if it is present.
    fn find(&self, key: &K) -> (r: Option<usize>)
        requires
            buckets_wf(self@),
        ensures
            r matches Some(p) ==> find_key(self@, key.leaf()) == Some(p as int),
            r is None ==> find_key(self@, key.leaf()) is None,
            r matches Some(p) ==> p < self.entries@.len(),
    {
        proof {
            lemma_lower_pos(self@, key.leaf());
            assert(self@.len() == self.entries@.len());
        }
        let p = self.position(key);
        if p < self.entries.len() && self.entries[p].0.same(key) {
            assert(self@[p as int].0 == self.entries@[p as int].0.leaf());
            Some(p)
        } else {
            proof {
                if p < self.entries@.len() {
                    assert(self@[p as int].0 == self.entries@[p as int].0.leaf());
                }
            }
            None
        }
    }

    /// Forgets that record `index` holds `key`.
    pub fn remove(&mut self, key: &K, index: u64)
        requires
            buckets_wf(old(self)@),
        ensures
            buckets_wf(final(self)@),
            final(self)@ == buckets_remove(old(self)@, key.leaf(), index),
    {
        proof {
            lemma_buckets_remove_wf(self@, key.leaf(), index);
        }
        match self.find(key) {
            Some(p) => {
                let ghost b = index_set_items(self.entries@[p as int].1);
                assert(b == self@[p as int].1);
                let ghost before = self.entries@;
                index_set_remove(&mut self.entries[p].1, &index);
                proof {
                    let nb = index_set_items(self.entries@[p as int].1);
                    if b.contains(index) {
                        let q = choose|q: int|
                            0 <= q < b.len() && b[q] == index && nb == b.update(
                                q,
                                b.last(),
                            ).drop_last();
                        assert(b[b.index_of(index)] == index);
                        assert(b.no_duplicates());
                        assert(q == b.index_of(index));
                    }
                    assert(nb == set_swap_remove(b, index));
                    assert(self.entries@[p as int].0 == before[p as int].0);
                    assert(self@ =~= buckets_remove(old(self)@, key.leaf(), index));
                }
            },
            None => {},
        }
    }

    /// The first record under `key`.
    pub fn first_by_value(&self, key: &K) -> (r: Option<u64>)
        requires
            buckets_wf(self@),
        ensures
            r == first_by_value(self@, key.leaf()),
    {
        match self.find(key) {
            Some(p) => {
                assert(index_set_items(self.entries@[p as int].1) == self@[p as int].1);
                index_set_get(&self.entries[p].1, 0)
            },
            None => None,
        }
    }

    /// All records under `key`, in the bucket's order.
    pub fn all_by_value(&self, key: &K) -> (r: Vec<u64>)
        requires
            buckets_wf(self@),
        ensures
            r@ == bucket(self@, key.leaf()),
    {
        match self.find(key) {
            Some(p) => {
                assert(index_set_items(self.entries@[p as int].1) == self@[p as int].1);
                set_items(&self.entries[p].1)
            },
            None => Vec::new(),
        }
    }

    /// The first record of the first key in `range` whose bucket is not empty.
    pub fn first_in_range(&self, range: &KeyRange<K>) -> (r: Option<u64>)
        ensures
            r == first_in_range(self@, range.view_range()),
    {
        let mut i: usize = 0;
        assert(self@.skip(0) =~= self@);
        while i < self.entries.len()
            invariant
                i <= self.entries@.len(),
                self@.len() == self.entries@.len(),
                first_in_range(self@, range.view_range()) == first_in_range(
                    self@.skip(i as int),
                    range.view_range(),
                ),
            decreases self.entries@.len() - i,
        {
            assert(self@.skip(i as int)[0] == self@[i as int]);
            assert(self@[i as int] == (
                self.entries@[i as int].0.leaf(),
                index_set_items(self.entries@[i as int].1),
            ));
            if range.contains(&self.entries[i].0) {
                let first = index_set_get(&self.entries[i].1, 0);
                if first.is_some() {
                    return first;
                }
            }
            assert(self@.skip(i as int).drop_first() =~= self@.skip(i + 1));
            i = i + 1;
        }
        None
    }

    /// The records of every key in `range`, key by key in increasing order.
    pub fn all_in_range(&self, range: &KeyRange<K>) -> (r: Vec<u64>)
        ensures
            r@ == all_in_range(self@, range.view_range()),
    {
        let mut out: Vec<u64> = Vec::new();
        let mut i: usize = 0;
        assert(self@.skip(0) =~= self@);
        while i < self.entries.len()
            invariant
                i <= self.entries@.len(),
                self@.len() == self.entries@.len(),
                all_in_range(self@, range.view_range()) == out@ + all_in_range(
                    self@.skip(i as int),
                    range.view_range(),
                ),
            decreases self.entries@.len() - i,
        {
            assert(self@.skip(i as int)[0] == self@[i as int]);
            assert(self@[i as int] == (
                self.entries@[i as int].0.leaf(),
                index_set_items(self.entries@[i as int].1),
            ));
            assert(self@.skip(i as int).drop_first() =~= self@.skip(i + 1));
            let ghost before = out@;
            if range.contains(&self.entries[i].0) {
                let mut items = set_items(&self.entries[i].1);
                out.append(&mut items);
                assert(before + all_in_range(self@.skip(i as int), range.view_range()) =~= out@
                    + all_in_range(self@.skip(i + 1), range.view_range()));
            } else {
                assert(before + all_in_range(self@.skip(i as int), range.view_range()) =~= out@
                    + all_in_range(self@.skip(i + 1), range.view_range()));
            }
            i = i + 1;
        }
        assert(out@ + all_in_range(self@.skip(i as int), range.view_range()) =~= out@);
        out
    }
}
} // verus!
