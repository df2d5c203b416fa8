//! The records of one type: their documents in insertion order, numbered,
//! and the field index over them.

use crate::collections::{
    index_map_get, index_map_get_index, index_map_items, index_map_len, index_map_new,
    index_map_or_insert, index_map_pop, index_map_remove, pair_keys,
};
use crate::index_laws::{
    field_value, holds_key, indexes, leaves_ok, lemma_indexes_add, lemma_indexes_remove,
    lemma_indexes_remove_ok, record_ids, some_holds, some_in_range, vec_at,
};
use crate::indexer::{
    json_leaf,
    add_ok, flat, index_all_by_range, index_all_by_value, index_first_by_range,
    index_first_by_value, lookup_ok, node_add, node_remove, IndexView, LeafType,
    ValueIndexer,
};
use crate::json::{JsonValue, JsonView};
use crate::ordered::{FloatKey, IndexKey, KeyRange, LeafKey, RangeView};
use indexmap::IndexMap;
use vstd::prelude::*;

verus! {

/// The model of an entry: the last record number handed out, the records
/// (number and document) in their current order, and the field index.
pub struct EntryView {
    pub counter: int,
    pub records: Seq<(u64, JsonView)>,
    pub index: IndexView,
}

/// The records of one type.
pub struct Entry {
    counter: u64,
    value_map: IndexMap<u64, JsonValue>,
    indexer: ValueIndexer,
}

/// The model of stored (number, document) pairs.
pub open spec fn view_records(s: Seq<(u64, JsonValue)>) -> Seq<(u64, JsonView)> {
    s.map_values(|p: (u64, JsonValue)| (p.0, p.1@))
}

impl View for Entry {
    type V = EntryView;

    closed spec fn view(&self) -> EntryView {
        EntryView {
            counter: self.counter as int,
            records: view_records(index_map_items(self.value_map)),
            index: self.indexer@,
        }
    }
}

/// An entry is well formed when its index lists exactly its records and
/// every record number was handed out already.
pub open spec fn entry_wf(e: EntryView) -> bool {
    &&& indexes(e.index, e.records)
    &&& 0 <= e.counter <= u64::MAX
    &&& forall|j: int| 0 <= j < e.records.len() ==> 1 <= (#[trigger] e.records[j]).0 <= e.counter
}

/// The document of record `x`, if there is such a record.
pub open spec fn record_value(recs: Seq<(u64, JsonView)>, x: u64) -> Option<JsonView>
    decreases recs.len(),
{
    if recs.len() == 0 {
        None
    } else if recs[0].0 == x {
        Some(recs[0].1)
    } else {
        record_value(recs.drop_first(), x)
    }
}

/// The documents of the records numbered `ids`, in that order; numbers
/// without a record are skipped.
pub open spec fn collect_values(recs: Seq<(u64, JsonView)>, ids: Seq<u64>) -> Seq<JsonView>
    decreases ids.len(),
{
    if ids.len() == 0 {
        Seq::empty()
    } else {
        let rest = collect_values(recs, ids.drop_last());
        match record_value(recs, ids.last()) {
            Some(v) => rest.push(v),
            None => rest,
        }
    }
}

/// The records after removing the one at position `p` by moving the last
/// record into its place.
pub open spec fn swap_remove_at<A>(s: Seq<A>, p: int) -> Seq<A> {
    s.update(p, s.last()).drop_last()
}

/// The view of the records, seen pairwise.
proof fn lemma_view_records(s: Seq<(u64, JsonValue)>)
    ensures
        view_records(s).len() == s.len(),
        forall|j: int| 0 <= j < s.len() ==> #[trigger] view_records(s)[j] == (s[j].0, s[j].1@),
        record_ids(view_records(s)) == pair_keys(s),
{
    assert(record_ids(view_records(s)) =~= pair_keys(s));
}

/// With distinct numbers, `record_value` finds the record at its position,
/// and finds nothing for a number no record has.
proof fn lemma_record_value(recs: Seq<(u64, JsonView)>, x: u64)
    requires
        record_ids(recs).no_duplicates(),
    ensures
        forall|j: int| 0 <= j < recs.len() && (#[trigger] recs[j]).0 == x ==> record_value(recs, x) == Some(recs[j].1),
        record_value(recs, x) is None <==> !record_ids(recs).contains(x),
    decreases recs.len(),
{
    if recs.len() > 0 {
        let t = recs.drop_first();
        assert(record_ids(t) =~= record_ids(recs).drop_first());
        assert(record_ids(t).no_duplicates()) by {
            assert forall|a: int, b: int| 0 <= a < b < record_ids(t).len() implies record_ids(t)[a] != record_ids(t)[b] by {
                assert(record_ids(t)[a] == record_ids(recs)[a + 1]);
                assert(record_ids(t)[b] == record_ids(recs)[b + 1]);
            }
        }
        lemma_record_value(t, x);
        assert(record_ids(recs)[0] == recs[0].0);
        assert forall|j: int| 0 <= j < recs.len() && (#[trigger] recs[j]).0 == x implies record_value(recs, x) == Some(recs[j].1) by {
            if j > 0 {
                assert(record_ids(recs)[0] == recs[0].0);
                assert(record_ids(recs)[j] == recs[j].0);
                assert(t[j - 1] == recs[j]);
            }
        }
        if record_ids(recs).contains(x) {
            let q = choose|q: int| 0 <= q < record_ids(recs).len() && record_ids(recs)[q] == x;
            if q > 0 {
                assert(record_ids(t)[q - 1] == x);
            }
        }
        if record_ids(t).contains(x) {
            let q = choose|q: int| 0 <= q < record_ids(t).len() && record_ids(t)[q] == x;
            assert(record_ids(recs)[q + 1] == x);
        }
    }
}

/// The same records in another order are indexed by the same index.
pub proof fn lemma_indexes_reorder(n: IndexView, a: Seq<(u64, JsonView)>, b: Seq<(u64, JsonView)>)
    requires
        indexes(n, a),
        record_ids(b).no_duplicates(),
        forall|r: (u64, JsonView)| a.contains(r) <==> b.contains(r),
    ensures
        indexes(n, b),
{
    assert forall|j: int| 0 <= j < b.len() implies flat((#[trigger] b[j]).1) && leaves_ok(b[j].1)
        && (b[j].1 is Object ==> n is Branch) && (n is Branch && !(b[j].1 is Object) ==> b[j].1 is Null) by {
        assert(b.contains(b[j]));
        let i = choose|i: int| 0 <= i < a.len() && a[i] == b[j];
    }
    assert forall|f: Seq<char>, k: LeafKey, x: u64| some_holds(a, x, f, k) <==> #[trigger] some_holds(b, x, f, k) by {
        if some_holds(a, x, f, k) {
            let i = choose|i: int| 0 <= i < a.len() && (#[trigger] a[i]).0 == x && holds_key(a[i].1, f, k);
            assert(a.contains(a[i]));
            let j = choose|j: int| 0 <= j < b.len() && b[j] == a[i];
        }
        if some_holds(b, x, f, k) {
            let i = choose|i: int| 0 <= i < b.len() && (#[trigger] b[i]).0 == x && holds_key(b[i].1, f, k);
            assert(b.contains(b[i]));
            let j = choose|j: int| 0 <= j < a.len() && a[j] == b[i];
        }
    }
    assert forall|f: Seq<char>, x: u64| crate::index_laws::some_array(a, x, f) <==> #[trigger] crate::index_laws::some_array(b, x, f) by {
        if crate::index_laws::some_array(a, x, f) {
            let i = choose|i: int| 0 <= i < a.len() && (#[trigger] a[i]).0 == x && field_value(a[i].1, f) is Array;
            assert(a.contains(a[i]));
            let j = choose|j: int| 0 <= j < b.len() && b[j] == a[i];
        }
        if crate::index_laws::some_array(b, x, f) {
            let i = choose|i: int| 0 <= i < b.len() && (#[trigger] b[i]).0 == x && field_value(b[i].1, f) is Array;
            assert(b.contains(b[i]));
            let j = choose|j: int| 0 <= j < a.len() && a[j] == b[i];
        }
    }
}

/// Removing by moving the last record into place leaves the same records as
/// removing in place.
proof fn lemma_swap_remove_same_records<A>(s: Seq<A>, p: int)
    requires
        0 <= p < s.len(),
    ensures
        forall|r: A| swap_remove_at(s, p).contains(r) <==> s.remove(p).contains(r),
{
    let a = swap_remove_at(s, p);
    let b = s.remove(p);
    let n = s.len() - 1;
    assert forall|r: A| a.contains(r) <==> b.contains(r) by {
        if a.contains(r) {
            let q = choose|q: int| 0 <= q < a.len() && a[q] == r;
            let q0 = if q == p { n } else { q };
            assert(s[q0] == r);
            let qb = if q0 < p { q0 } else { q0 - 1 };
            assert(b[qb] == r);
        }
        if b.contains(r) {
            let q = choose|q: int| 0 <= q < b.len() && b[q] == r;
            let q0 = if q < p { q } else { q + 1 };
            assert(s[q0] == r);
            if q0 == n {
                assert(a[p] == r);
            } else {
                assert(a[q0] == r);
            }
        }
    }
}

impl Entry {
    /// An entry with no records.
    pub fn new() -> (r: Entry)
        ensures
            r@.counter == 0,
            r@.records == Seq::<(u64, JsonView)>::empty(),
            r@.index == IndexView::Null,
            entry_wf(r@),
    {
        let r = Entry { counter: 0, value_map: index_map_new(), indexer: ValueIndexer::new() };
        proof {
            assert(r@.records =~= Seq::<(u64, JsonView)>::empty());
            assert(record_ids(r@.records) =~= Seq::<u64>::empty());
            assert forall|f: Seq<char>, k: LeafKey| #[trigger] index_all_by_value(IndexView::Null, f, k) == Seq::<u64>::empty() by {}
            assert forall|f: Seq<char>| #[trigger] vec_at(IndexView::Null, f) == Seq::<u64>::empty() by {}
        }
        r
    }

    /// Hands out the next record number and stores `value` under it.
    fn add_value_to_list(&mut self, value: JsonValue)
        requires
            entry_wf(old(self)@),
            old(self)@.counter < u64::MAX,
        ensures
            final(self)@.counter == old(self)@.counter + 1,
            final(self)@.records == old(self)@.records.push(((old(self)@.counter + 1) as u64, value@)),
            final(self)@.index == old(self)@.index,
    {
        self.counter = self.counter + 1;
        let ghost items = index_map_items(self.value_map);
        proof {
            lemma_view_records(items);
            if pair_keys(items).contains(self.counter) {
                let q = choose|q: int| 0 <= q < pair_keys(items).len() && pair_keys(items)[q] == self.counter;
                assert(view_records(items)[q].0 == self.counter);
            }
        }
        index_map_or_insert(&mut self.value_map, self.counter, value);
        proof {
            assert(view_records(index_map_items(self.value_map)) =~= view_records(items).push((self.counter, value@)));
        }
    }

    /// Adds a flattened document as a new record, indexing its fields.
    pub fn add(&mut self, obj: JsonValue)
        requires
            entry_wf(old(self)@),
            old(self)@.counter < u64::MAX,
            flat(obj@),
            add_ok(old(self)@.index, obj@),
        ensures
            entry_wf(final(self)@),
            final(self)@.counter == old(self)@.counter + 1,
            final(self)@.records == old(self)@.records.push(((old(self)@.counter + 1) as u64, obj@)),
            final(self)@.index == node_add(old(self)@.index, obj@, (old(self)@.counter + 1) as u64),
    {
        let copy = obj.copy();
        self.add_value_to_list(copy);
        proof {
            let recs = old(self)@.records;
            assert(!record_ids(recs).contains(self.counter)) by {
                if record_ids(recs).contains(self.counter) {
                    let q = choose|q: int| 0 <= q < record_ids(recs).len() && record_ids(recs)[q] == self.counter;
                    assert(recs[q].0 == record_ids(recs)[q]);
                }
            }
            crate::index_laws::lemma_add_ok_leaves_ok(old(self)@.index, obj@);
            lemma_indexes_add(old(self)@.index, recs, obj@, self.counter);
        }
        self.indexer.add(obj, self.counter);
        proof {
            let recs2 = self@.records;
            assert forall|j: int| 0 <= j < recs2.len() implies 1 <= (#[trigger] recs2[j]).0 <= self.counter by {
                if j < old(self)@.records.len() {
                    assert(recs2[j] == old(self)@.records[j]);
                }
            }
        }
    }
}


/// The position of record `x`, if there is one.
pub open spec fn record_pos(recs: Seq<(u64, JsonView)>, x: u64) -> Option<int>
    decreases recs.len(),
{
    if recs.len() == 0 {
        None
    } else if recs[0].0 == x {
        Some(0)
    } else {
        match record_pos(recs.drop_first(), x) {
            Some(p) => Some(p + 1),
            None => None,
        }
    }
}

/// With distinct numbers, `record_pos` finds the one position of a number.
pub proof fn lemma_record_pos(recs: Seq<(u64, JsonView)>, x: u64)
    requires
        record_ids(recs).no_duplicates(),
    ensures
        record_pos(recs, x) matches Some(p) ==> 0 <= p < recs.len() && recs[p].0 == x,
        forall|j: int| 0 <= j < recs.len() && (#[trigger] recs[j]).0 == x ==> record_pos(recs, x) == Some(j),
        record_pos(recs, x) is None ==> record_value(recs, x) is None,
        record_pos(recs, x) matches Some(p) ==> record_value(recs, x) == Some(recs[p].1),
    decreases recs.len(),
{
    lemma_record_value(recs, x);
    if recs.len() > 0 {
        let t = recs.drop_first();
        assert(record_ids(t) =~= record_ids(recs).drop_first());
        assert(record_ids(t).no_duplicates()) by {
            assert forall|a: int, b: int| 0 <= a < b < record_ids(t).len() implies record_ids(t)[a] != record_ids(t)[b] by {
                assert(record_ids(t)[a] == record_ids(recs)[a + 1]);
                assert(record_ids(t)[b] == record_ids(recs)[b + 1]);
            }
        }
        lemma_record_pos(t, x);
        assert(record_ids(recs)[0] == recs[0].0);
        assert forall|j: int| 0 <= j < recs.len() && (#[trigger] recs[j]).0 == x implies record_pos(recs, x) == Some(j) by {
            if j > 0 {
                assert(record_ids(recs)[j] == recs[j].0);
                assert(t[j - 1] == recs[j]);
            }
        }
        if record_pos(recs, x) is None {
            if record_ids(recs).contains(x) {
                let q = choose|q: int| 0 <= q < record_ids(recs).len() && record_ids(recs)[q] == x;
                assert(recs[q].0 == x);
            }
        }
    }
}

/// The document of the first record whose `field` holds `k`.
pub open spec fn entry_first_by_value(e: EntryView, field: Seq<char>, k: LeafKey) -> Option<JsonView> {
    match index_first_by_value(e.index, field, k) {
        Some(x) => record_value(e.records, x),
        None => None,
    }
}

/// The document of the first record whose `field` lies in range `r`.
pub open spec fn entry_first_by_range(e: EntryView, field: Seq<char>, r: RangeView) -> Option<JsonView> {
    match index_first_by_range(e.index, field, r) {
        Some(x) => record_value(e.records, x),
        None => None,
    }
}

/// The entry after taking out record `x`, if present, by moving the last
/// record into its place and unlisting it from the index.
pub open spec fn entry_remove_record(e: EntryView, x: u64) -> EntryView {
    match record_pos(e.records, x) {
        Some(p) => EntryView {
            counter: e.counter,
            records: swap_remove_at(e.records, p),
            index: node_remove(e.index, x, e.records[p].1),
        },
        None => e,
    }
}

/// The entry after taking out the records `ids`, one after another.
pub open spec fn entry_remove_records(e: EntryView, ids: Seq<u64>) -> EntryView
    decreases ids.len(),
{
    if ids.len() == 0 {
        e
    } else {
        entry_remove_records(entry_remove_record(e, ids[0]), ids.drop_first())
    }
}

/// Whether a range lookup of `field` is accepted: when the field's leaf
/// holds keys, the range must be well formed.
pub open spec fn range_query_ok(n: IndexView, field: Seq<char>, r: RangeView) -> bool {
    (crate::indexer::select(n, field) is Leaf) ==> crate::ordered::range_ok(r)
}

/// Taking out a listed record keeps the entry well formed.
proof fn lemma_entry_remove_record(e: EntryView, x: u64)
    requires
        entry_wf(e),
    ensures
        entry_wf(entry_remove_record(e, x)),
        entry_remove_record(e, x).counter == e.counter,
        record_pos(e.records, x) matches Some(p) ==> crate::indexer::remove_ok(e.index, e.records[p].1)
            && flat(e.records[p].1),
{
    lemma_record_pos(e.records, x);
    if let Some(p) = record_pos(e.records, x) {
        lemma_indexes_remove(e.index, e.records, p);
        lemma_indexes_remove_ok(e.index, e.records, p);
        lemma_swap_remove_same_records(e.records, p);
        let b = swap_remove_at(e.records, p);
        assert(record_ids(b).no_duplicates()) by {
            let ids = record_ids(b);
            let old_ids = record_ids(e.records);
            let n = e.records.len() - 1;
            assert forall|a: int, c: int| 0 <= a < c < ids.len() implies ids[a] != ids[c] by {
                let a0 = if a == p { n } else { a };
                let c0 = if c == p { n } else { c };
                assert(ids[a] == old_ids[a0] && ids[c] == old_ids[c0]);
            }
        }
        lemma_indexes_reorder(node_remove(e.index, x, e.records[p].1), e.records.remove(p), b);
        assert forall|j: int| 0 <= j < b.len() implies 1 <= (#[trigger] b[j]).0 <= e.counter by {
            let j0 = if j == p { e.records.len() - 1 } else { j };
            assert(b[j] == e.records[j0]);
        }
    }
}

impl Entry {
    /// The document of the first record, if any.
    pub fn get(&self) -> (r: Option<JsonValue>)
        ensures
            self@.records.len() == 0 ==> r is None,
            self@.records.len() > 0 ==> (r matches Some(v) && v@ == self@.records[0].1),
    {
        proof {
            lemma_view_records(index_map_items(self.value_map));
        }
        match index_map_get_index(&self.value_map, 0) {
            Some(v) => Some(v.copy()),
            None => None,
        }
    }

    /// The documents of all records, in order.
    pub fn get_all(&self) -> (r: Vec<JsonValue>)
        ensures
            r@.len() == self@.records.len(),
            forall|j: int| 0 <= j < r@.len() ==> (#[trigger] r@[j])@ == self@.records[j].1,
    {
        proof {
            lemma_view_records(index_map_items(self.value_map));
        }
        let mut out: Vec<JsonValue> = Vec::new();
        let n = index_map_len(&self.value_map);
        let mut i: usize = 0;
        while i < n
            invariant
                i <= n,
                n == self@.records.len(),
                n == index_map_items(self.value_map).len(),
                forall|j: int| 0 <= j < n ==> #[trigger] self@.records[j] == (index_map_items(self.value_map)[j].0, index_map_items(self.value_map)[j].1@),
                out@.len() == i,
                forall|j: int| 0 <= j < i ==> (#[trigger] out@[j])@ == self@.records[j].1,
            decreases n - i,
        {
            let v = index_map_get_index(&self.value_map, i).unwrap();
            out.push(v.copy());
            i = i + 1;
        }
        out
    }

    /// Removes and returns the document of the last record.
    pub fn remove(&mut self) -> (r: Option<JsonValue>)
        requires
            entry_wf(old(self)@),
        ensures
            entry_wf(final(self)@),
            old(self)@.records.len() == 0 ==> r is None && final(self)@ == old(self)@,
            old(self)@.records.len() > 0 ==> (r matches Some(v) && v@ == old(self)@.records.last().1
                && final(self)@ == entry_remove_record(old(self)@, old(self)@.records.last().0)),
    {
        let ghost e = self@;
        proof {
            lemma_view_records(index_map_items(self.value_map));
        }
        match index_map_pop(&mut self.value_map) {
            Some((key, value)) => {
                proof {
                    let last = e.records.len() - 1;
                    assert(e.records[last] == (key, value@));
                    lemma_record_pos(e.records, key);
                    lemma_entry_remove_record(e, key);
                    lemma_view_records(index_map_items(self.value_map));
                    assert(self@.records =~= swap_remove_at(e.records, last));
                }
                self.indexer.remove(key, &value);
                Some(value)
            },
            None => {
                proof {
                    lemma_view_records(index_map_items(self.value_map));
                    assert(self@.records =~= e.records);
                }
                None
            },
        }
    }

    /// Removes all records and returns their documents in order. The
    /// numbering starts again from zero.
    pub fn remove_all(&mut self) -> (r: Vec<JsonValue>)
        ensures
            r@.len() == old(self)@.records.len(),
            forall|j: int| 0 <= j < r@.len() ==> (#[trigger] r@[j])@ == old(self)@.records[j].1,
            final(self)@.counter == 0,
            final(self)@.records == Seq::<(u64, JsonView)>::empty(),
            final(self)@.index == IndexView::Null,
            entry_wf(final(self)@),
    {
        let result = self.get_all();
        *self = Entry::new();
        result
    }

    /// The document of record `index`, if there is one.
    fn get_value_from_index(&self, index: &u64) -> (r: Option<JsonValue>)
        requires
            entry_wf(self@),
        ensures
            r matches Some(v) ==> record_value(self@.records, *index) == Some(v@),
            r is None ==> record_value(self@.records, *index) is None,
    {
        proof {
            lemma_view_records(index_map_items(self.value_map));
            lemma_record_value(self@.records, *index);
        }
        match index_map_get(&self.value_map, index) {
            Some(v) => {
                proof {
                    let items = index_map_items(self.value_map);
                    let p = choose|p: int| 0 <= p < items.len() && items[p] == (*index, *v);
                    assert(self@.records[p] == (*index, v@));
                }
                Some(v.copy())
            },
            None => None,
        }
    }

    /// Takes record `index` out of the stored documents (not out of the
    /// index) by moving the last record into its place.
    fn remove_value_from_index(&mut self, index: &u64) -> (r: Option<JsonValue>)
        requires
            entry_wf(old(self)@),
        ensures
            final(self)@.counter == old(self)@.counter,
            final(self)@.index == old(self)@.index,
            r is None ==> record_pos(old(self)@.records, *index) is None && final(self)@ == old(self)@,
            r matches Some(v) ==> (record_pos(old(self)@.records, *index) matches Some(p) && v@
                == old(self)@.records[p].1 && final(self)@.records == swap_remove_at(old(self)@.records, p)),
    {
        let ghost e = self@;
        proof {
            lemma_view_records(index_map_items(self.value_map));
            lemma_record_pos(e.records, *index);
        }
        let ghost items = index_map_items(self.value_map);
        let r = index_map_remove(&mut self.value_map, index);
        proof {
            lemma_view_records(index_map_items(self.value_map));
            match &r {
                Some(v) => {
                    let v = *v;
                    let p = choose|p: int| 0 <= p < items.len() && items[p] == (*index, v) && index_map_items(self.value_map) == items.update(p, items.last()).drop_last();
                    assert(e.records[p] == (*index, v@));
                    assert(self@.records =~= swap_remove_at(e.records, p));
                },
                None => {
                    if record_pos(e.records, *index) is Some {
                        let p = record_pos(e.records, *index).unwrap();
                        assert(pair_keys(items)[p] == *index);
                    }
                    assert(self@.records =~= e.records);
                },
            }
        }
        r
    }
}

/// Taking out another record leaves a record's document as it was.
proof fn lemma_record_value_after_remove(e: EntryView, y: u64, x: u64)
    requires
        entry_wf(e),
        x != y,
    ensures
        record_value(entry_remove_record(e, y).records, x) == record_value(e.records, x),
{
    lemma_record_pos(e.records, y);
    lemma_record_pos(e.records, x);
    lemma_entry_remove_record(e, y);
    let e2 = entry_remove_record(e, y);
    lemma_record_pos(e2.records, x);
    if let Some(p) = record_pos(e.records, y) {
        let b = e2.records;
        let n = e.records.len() - 1;
        if let Some(q) = record_pos(e.records, x) {
            assert(q != p);
            let q2 = if q == n { p } else { q };
            assert(b[q2] == e.records[q]);
        }
        if let Some(q2) = record_pos(b, x) {
            let q = if q2 == p { n } else { q2 };
            assert(b[q2] == e.records[q]);
        }
    }
}

/// When every number has a record, the documents collected are one per
/// number, in order.
pub proof fn lemma_collect_values(recs: Seq<(u64, JsonView)>, ids: Seq<u64>)
    requires
        forall|q: int| 0 <= q < ids.len() ==> #[trigger] record_value(recs, ids[q]) is Some,
    ensures
        collect_values(recs, ids).len() == ids.len(),
        forall|q: int| 0 <= q < ids.len() ==> Some(#[trigger] collect_values(recs, ids)[q]) == record_value(recs, ids[q]),
    decreases ids.len(),
{
    if ids.len() > 0 {
        let t = ids.drop_last();
        assert forall|q: int| 0 <= q < t.len() implies #[trigger] record_value(recs, t[q]) is Some by {
            assert(t[q] == ids[q]);
        }
        lemma_collect_values(recs, t);
        assert(record_value(recs, ids[ids.len() - 1]) is Some);
        assert forall|q: int| 0 <= q < ids.len() implies Some(#[trigger] collect_values(recs, ids)[q]) == record_value(recs, ids[q]) by {
            if q < t.len() {
                assert(t[q] == ids[q]);
            }
        }
    }
}

impl Entry {
    /// The documents of the records numbered `ids`, in that order.
    fn values_of(&self, ids: &Vec<u64>) -> (r: Vec<JsonValue>)
        requires
            entry_wf(self@),
        ensures
            r@.len() == collect_values(self@.records, ids@).len(),
            forall|q: int| 0 <= q < r@.len() ==> (#[trigger] r@[q])@ == collect_values(self@.records, ids@)[q],
    {
        let mut out: Vec<JsonValue> = Vec::new();
        let mut i: usize = 0;
        while i < ids.len()
            invariant
                i <= ids@.len(),
                entry_wf(self@),
                out@.len() == collect_values(self@.records, ids@.take(i as int)).len(),
                forall|q: int| 0 <= q < out@.len() ==> (#[trigger] out@[q])@ == collect_values(self@.records, ids@.take(i as int))[q],
            decreases ids@.len() - i,
        {
            let v = self.get_value_from_index(&ids[i]);
            proof {
                assert(ids@.take(i + 1).drop_last() =~= ids@.take(i as int));
                assert(ids@.take(i + 1).last() == ids@[i as int]);
            }
            match v {
                Some(v) => out.push(v),
                None => {},
            }
            i = i + 1;
        }
        assert(ids@.take(ids@.len() as int) =~= ids@);
        out
    }

    /// Takes record `i` out, if there is one, and returns its document.
    fn remove_record(&mut self, i: u64) -> (r: Option<JsonValue>)
        requires
            entry_wf(old(self)@),
        ensures
            entry_wf(final(self)@),
            final(self)@ == entry_remove_record(old(self)@, i),
            r matches Some(v) ==> record_value(old(self)@.records, i) == Some(v@),
            r is None ==> record_value(old(self)@.records, i) is None,
    {
        let ghost e = self@;
        proof {
            lemma_record_pos(e.records, i);
            lemma_entry_remove_record(e, i);
        }
        let val = self.remove_value_from_index(&i);
        match &val {
            Some(v) => {
                self.indexer.remove(i, v);
            },
            None => {},
        }
        val
    }

    /// Takes the records numbered `ids` out, one after another, and returns
    /// their documents in that order.
    fn remove_records(&mut self, ids: &Vec<u64>) -> (r: Vec<JsonValue>)
        requires
            entry_wf(old(self)@),
            ids@.no_duplicates(),
        ensures
            entry_wf(final(self)@),
            final(self)@ == entry_remove_records(old(self)@, ids@),
            r@.len() == collect_values(old(self)@.records, ids@).len(),
            forall|q: int| 0 <= q < r@.len() ==> (#[trigger] r@[q])@ == collect_values(old(self)@.records, ids@)[q],
    {
        let ghost e0 = self@;
        let mut out: Vec<JsonValue> = Vec::new();
        let mut i: usize = 0;
        assert(ids@.skip(0) =~= ids@);
        while i < ids.len()
            invariant
                i <= ids@.len(),
                ids@.no_duplicates(),
                entry_wf(self@),
                entry_remove_records(e0, ids@) == entry_remove_records(self@, ids@.skip(i as int)),
                forall|q: int| i <= q < ids@.len() ==> record_value(self@.records, #[trigger] ids@[q]) == record_value(e0.records, ids@[q]),
                out@.len() == collect_values(e0.records, ids@.take(i as int)).len(),
                forall|q: int| 0 <= q < out@.len() ==> (#[trigger] out@[q])@ == collect_values(e0.records, ids@.take(i as int))[q],
            decreases ids@.len() - i,
        {
            let ghost before = self@;
            let x = ids[i];
            let v = self.remove_record(x);
            proof {
                assert(ids@.skip(i as int)[0] == x);
                assert(ids@.skip(i as int).drop_first() =~= ids@.skip(i + 1));
                assert(ids@.take(i + 1).drop_last() =~= ids@.take(i as int));
                assert(ids@.take(i + 1).last() == x);
                assert forall|q: int| i + 1 <= q < ids@.len() implies record_value(self@.records, #[trigger] ids@[q]) == record_value(e0.records, ids@[q]) by {
                    assert(ids@[q] != x);
                    lemma_record_value_after_remove(before, x, ids@[q]);
                }
            }
            match v {
                Some(v) => out.push(v),
                None => {},
            }
            i = i + 1;
        }
        assert(ids@.take(ids@.len() as int) =~= ids@);
        assert(ids@.skip(ids@.len() as int) =~= Seq::<u64>::empty());
        out
    }
}

/// The records left after taking out records `ids` are the old records
/// whose numbers are not among `ids`.
pub proof fn lemma_entry_remove_records(e: EntryView, ids: Seq<u64>)
    requires
        entry_wf(e),
    ensures
        entry_wf(entry_remove_records(e, ids)),
        entry_remove_records(e, ids).counter == e.counter,
        forall|r: (u64, JsonView)|
            #[trigger] entry_remove_records(e, ids).records.contains(r) <==> e.records.contains(r)
                && !ids.contains(r.0),
    decreases ids.len(),
{
    if ids.len() > 0 {
        let x = ids[0];
        let e1 = entry_remove_record(e, x);
        lemma_entry_remove_record(e, x);
        lemma_entry_remove_records(e1, ids.drop_first());
        lemma_record_pos(e.records, x);
        assert forall|r: (u64, JsonView)| e1.records.contains(r) <==> e.records.contains(r) && r.0 != x by {
            if let Some(p) = record_pos(e.records, x) {
                lemma_swap_remove_same_records(e.records, p);
                if e.records.remove(p).contains(r) {
                    let q = choose|q: int| 0 <= q < e.records.remove(p).len() && e.records.remove(p)[q] == r;
                    let q0 = if q < p { q } else { q + 1 };
                    assert(e.records[q0] == r);
                    assert(q0 != p);
                }
                if e.records.contains(r) && r.0 != x {
                    let q0 = choose|q: int| 0 <= q < e.records.len() && e.records[q] == r;
                    assert(q0 != p);
                    let q = if q0 < p { q0 } else { q0 - 1 };
                    assert(e.records.remove(p)[q] == r);
                }
            } else {
                if e.records.contains(r) {
                    let q0 = choose|q: int| 0 <= q < e.records.len() && e.records[q] == r;
                    assert(e.records[q0].0 != x);
                }
            }
        }
        assert forall|r: (u64, JsonView)| #[trigger] entry_remove_records(e, ids).records.contains(r) <==> e.records.contains(r) && !ids.contains(r.0) by {
            if ids.contains(r.0) && r.0 != x {
                let q = choose|q: int| 0 <= q < ids.len() && ids[q] == r.0;
                assert(ids.drop_first()[q - 1] == r.0);
            }
            if ids.drop_first().contains(r.0) {
                let q = choose|q: int| 0 <= q < ids.drop_first().len() && ids.drop_first()[q] == r.0;
                assert(ids[q + 1] == r.0);
            }
            assert(ids[0] == x);
        }
    }
}

/// Every number in an index bucket has a record.
proof fn lemma_bucket_has_records(e: EntryView, ids: Seq<u64>)
    requires
        entry_wf(e),
        forall|x: u64| #[trigger] ids.contains(x) ==> record_ids(e.records).contains(x),
    ensures
        forall|q: int| 0 <= q < ids.len() ==> #[trigger] record_value(e.records, ids[q]) is Some,
{
    assert forall|q: int| 0 <= q < ids.len() implies #[trigger] record_value(e.records, ids[q]) is Some by {
        assert(ids.contains(ids[q]));
        lemma_record_value(e.records, ids[q]);
    }
}

/// A record listed under a number exists.
proof fn lemma_holder_listed(e: EntryView, x: u64, j: int)
    requires
        entry_wf(e),
        0 <= j < e.records.len(),
        e.records[j].0 == x,
    ensures
        record_ids(e.records).contains(x),
        record_value(e.records, x) == Some(e.records[j].1),
{
    assert(record_ids(e.records)[j] == x);
    lemma_record_value(e.records, x);
}

/// Lookup of records by the value of a field, for keys of type `U`.
pub trait ValueLookupEntry<U: LeafType>: View<V = EntryView> {
    /// The document of the first record whose `field` holds `key`.
    fn get_by_value(&self, field: &str, key: &U) -> (r: Option<JsonValue>)
        requires
            entry_wf(self@),
            lookup_ok(self@.index, field@, U::kind()),
        ensures
            r matches Some(v) ==> entry_first_by_value(self@, field@, key.leaf()) == Some(v@),
            r is None ==> entry_first_by_value(self@, field@, key.leaf()) is None,
            r matches Some(v) ==> holds_key(v@, field@, key.leaf()),
            r is None <==> forall|j: int| 0 <= j < self@.records.len() ==> !holds_key(#[trigger] self@.records[j].1, field@, key.leaf()),
    ;

    /// The documents of all records whose `field` holds `key`.
    fn get_all_by_value(&self, field: &str, key: &U) -> (r: Vec<JsonValue>)
        requires
            entry_wf(self@),
            lookup_ok(self@.index, field@, U::kind()),
        ensures
            r@.len() == index_all_by_value(self@.index, field@, key.leaf()).len(),
            forall|q: int| 0 <= q < r@.len() ==> (#[trigger] r@[q])@ == collect_values(self@.records, index_all_by_value(self@.index, field@, key.leaf()))[q],
            forall|q: int| 0 <= q < r@.len() ==> holds_key((#[trigger] r@[q])@, field@, key.leaf()),
            forall|j: int| 0 <= j < self@.records.len() && holds_key(#[trigger] self@.records[j].1, field@, key.leaf())
                ==> exists|q: int| 0 <= q < r@.len() && (#[trigger] r@[q])@ == self@.records[j].1,
    ;

    /// Removes the first record whose `field` holds `key` and returns its document.
    fn remove_by_value(&mut self, field: &str, key: &U) -> (r: Option<JsonValue>)
        requires
            entry_wf(old(self)@),
            lookup_ok(old(self)@.index, field@, U::kind()),
        ensures
            entry_wf(final(self)@),
            final(self)@ == (match index_first_by_value(old(self)@.index, field@, key.leaf()) {
                Some(x) => entry_remove_record(old(self)@, x),
                None => old(self)@,
            }),
            r matches Some(v) ==> entry_first_by_value(old(self)@, field@, key.leaf()) == Some(v@),
            r is None ==> entry_first_by_value(old(self)@, field@, key.leaf()) is None,
            r matches Some(v) ==> holds_key(v@, field@, key.leaf()),
            r is None <==> forall|j: int| 0 <= j < old(self)@.records.len() ==> !holds_key(#[trigger] old(self)@.records[j].1, field@, key.leaf()),
    ;

    /// Removes all records whose `field` holds `key` and returns their documents.
    fn remove_all_by_value(&mut self, field: &str, key: &U) -> (r: Vec<JsonValue>)
        requires
            entry_wf(old(self)@),
            lookup_ok(old(self)@.index, field@, U::kind()),
        ensures
            entry_wf(final(self)@),
            final(self)@ == entry_remove_records(old(self)@, index_all_by_value(old(self)@.index, field@, key.leaf())),
            r@.len() == index_all_by_value(old(self)@.index, field@, key.leaf()).len(),
            forall|q: int| 0 <= q < r@.len() ==> (#[trigger] r@[q])@ == collect_values(old(self)@.records, index_all_by_value(old(self)@.index, field@, key.leaf()))[q],
            forall|q: int| 0 <= q < r@.len() ==> holds_key((#[trigger] r@[q])@, field@, key.leaf()),
            forall|j: int| 0 <= j < final(self)@.records.len() ==> !holds_key(#[trigger] final(self)@.records[j].1, field@, key.leaf()),
            forall|j: int| 0 <= j < old(self)@.records.len() && !holds_key(#[trigger] old(self)@.records[j].1, field@, key.leaf())
                ==> final(self)@.records.contains(old(self)@.records[j]),
    ;
}

impl Entry {
    pub fn find_by_value<U: LeafType>(&self, field: &str, key: &U) -> (r: Option<JsonValue>)
        requires
            entry_wf(self@),
            lookup_ok(self@.index, field@, U::kind()),
        ensures
            r matches Some(v) ==> entry_first_by_value(self@, field@, key.leaf()) == Some(v@),
            r is None ==> entry_first_by_value(self@, field@, key.leaf()) is None,
            r matches Some(v) ==> holds_key(v@, field@, key.leaf()),
            r is None <==> forall|j: int| 0 <= j < self@.records.len() ==> !holds_key(#[trigger] self@.records[j].1, field@, key.leaf()),
    {
        let ghost e = self@;
        proof {
            crate::index_laws::lemma_lookup_by_value(e.index, e.records, field@, key.leaf());
        }
        let index = self.indexer.first_index_by_value(field, key);
        match index {
            Some(i) => {
                proof {
                    let j = choose|j: int| 0 <= j < e.records.len() && (#[trigger] e.records[j]).0 == i && holds_key(e.records[j].1, field@, key.leaf());
                    lemma_holder_listed(e, i, j);
                }
                let r = self.get_value_from_index(&i);
                proof {
                    assert(r is Some);
                    assert(!(forall|j: int| 0 <= j < e.records.len() ==> !holds_key(#[trigger] e.records[j].1, field@, key.leaf())));
                }
                r
            },
            None => {
                proof {
                    assert forall|j: int| 0 <= j < e.records.len() implies !holds_key(#[trigger] e.records[j].1, field@, key.leaf()) by {
                        assert(!some_holds(e.records, e.records[j].0, field@, key.leaf()));
                    }
                }
                None
            },
        }
    }

    pub fn find_all_by_value<U: LeafType>(&self, field: &str, key: &U) -> (r: Vec<JsonValue>)
        requires
            entry_wf(self@),
            lookup_ok(self@.index, field@, U::kind()),
        ensures
            r@.len() == index_all_by_value(self@.index, field@, key.leaf()).len(),
            r@.len() == collect_values(self@.records, index_all_by_value(self@.index, field@, key.leaf())).len(),
            forall|q: int| 0 <= q < r@.len() ==> (#[trigger] r@[q])@ == collect_values(self@.records, index_all_by_value(self@.index, field@, key.leaf()))[q],
            forall|q: int| 0 <= q < r@.len() ==> holds_key((#[trigger] r@[q])@, field@, key.leaf()),
            forall|j: int| 0 <= j < self@.records.len() && holds_key(#[trigger] self@.records[j].1, field@, key.leaf())
                ==> exists|q: int| 0 <= q < r@.len() && (#[trigger] r@[q])@ == self@.records[j].1,
    {
        let ghost e = self@;
        let ghost ids = index_all_by_value(e.index, field@, key.leaf());
        proof {
            crate::index_laws::lemma_lookup_by_value(e.index, e.records, field@, key.leaf());
            assert forall|x: u64| #[trigger] ids.contains(x) implies record_ids(e.records).contains(x) by {
                let j = choose|j: int| 0 <= j < e.records.len() && (#[trigger] e.records[j]).0 == x && holds_key(e.records[j].1, field@, key.leaf());
                lemma_holder_listed(e, x, j);
            }
            lemma_bucket_has_records(e, ids);
            lemma_collect_values(e.records, ids);
        }
        let indices = self.indexer.all_indices_by_value(field, key);
        let r = self.values_of(&indices);
        proof {
            assert forall|q: int| 0 <= q < r@.len() implies holds_key((#[trigger] r@[q])@, field@, key.leaf()) by {
                let x = ids[q];
                assert(ids.contains(x));
                let j = choose|j: int| 0 <= j < e.records.len() && (#[trigger] e.records[j]).0 == x && holds_key(e.records[j].1, field@, key.leaf());
                lemma_holder_listed(e, x, j);
            }
            assert forall|j: int| 0 <= j < e.records.len() && holds_key(#[trigger] e.records[j].1, field@, key.leaf())
                implies exists|q: int| 0 <= q < r@.len() && (#[trigger] r@[q])@ == e.records[j].1 by {
                let x = e.records[j].0;
                assert(some_holds(e.records, x, field@, key.leaf()));
                assert(ids.contains(x));
                let q = choose|q: int| 0 <= q < ids.len() && ids[q] == x;
                lemma_holder_listed(e, x, j);
                assert(r@[q]@ == e.records[j].1);
            }
        }
        r
    }

    pub fn take_by_value<U: LeafType>(&mut self, field: &str, key: &U) -> (r: Option<JsonValue>)
        requires
            entry_wf(old(self)@),
            lookup_ok(old(self)@.index, field@, U::kind()),
        ensures
            entry_wf(final(self)@),
            final(self)@ == (match index_first_by_value(old(self)@.index, field@, key.leaf()) {
                Some(x) => entry_remove_record(old(self)@, x),
                None => old(self)@,
            }),
            r matches Some(v) ==> entry_first_by_value(old(self)@, field@, key.leaf()) == Some(v@),
            r is None ==> entry_first_by_value(old(self)@, field@, key.leaf()) is None,
            r matches Some(v) ==> holds_key(v@, field@, key.leaf()),
            r is None <==> forall|j: int| 0 <= j < old(self)@.records.len() ==> !holds_key(#[trigger] old(self)@.records[j].1, field@, key.leaf()),
    {
        let ghost e = self@;
        proof {
            crate::index_laws::lemma_lookup_by_value(e.index, e.records, field@, key.leaf());
        }
        let index = self.indexer.first_index_by_value(field, key);
        match index {
            Some(i) => {
                proof {
                    let j = choose|j: int| 0 <= j < e.records.len() && (#[trigger] e.records[j]).0 == i && holds_key(e.records[j].1, field@, key.leaf());
                    lemma_holder_listed(e, i, j);
                    assert(!(forall|j: int| 0 <= j < e.records.len() ==> !holds_key(#[trigger] e.records[j].1, field@, key.leaf())));
                }
                self.remove_record(i)
            },
            None => {
                proof {
                    assert forall|j: int| 0 <= j < e.records.len() implies !holds_key(#[trigger] e.records[j].1, field@, key.leaf()) by {
                        assert(!some_holds(e.records, e.records[j].0, field@, key.leaf()));
                    }
                }
                None
            },
        }
    }

    pub fn take_all_by_value<U: LeafType>(&mut self, field: &str, key: &U) -> (r: Vec<JsonValue>)
        requires
            entry_wf(old(self)@),
            lookup_ok(old(self)@.index, field@, U::kind()),
        ensures
            entry_wf(final(self)@),
            final(self)@ == entry_remove_records(old(self)@, index_all_by_value(old(self)@.index, field@, key.leaf())),
            r@.len() == index_all_by_value(old(self)@.index, field@, key.leaf()).len(),
            r@.len() == collect_values(old(self)@.records, index_all_by_value(old(self)@.index, field@, key.leaf())).len(),
            forall|q: int| 0 <= q < r@.len() ==> (#[trigger] r@[q])@ == collect_values(old(self)@.records, index_all_by_value(old(self)@.index, field@, key.leaf()))[q],
            forall|q: int| 0 <= q < r@.len() ==> holds_key((#[trigger] r@[q])@, field@, key.leaf()),
            forall|j: int| 0 <= j < final(self)@.records.len() ==> !holds_key(#[trigger] final(self)@.records[j].1, field@, key.leaf()),
            forall|j: int| 0 <= j < old(self)@.records.len() && !holds_key(#[trigger] old(self)@.records[j].1, field@, key.leaf())
                ==> final(self)@.records.contains(old(self)@.records[j]),
    {
        let ghost e = self@;
        let ghost ids = index_all_by_value(e.index, field@, key.leaf());
        proof {
            crate::index_laws::lemma_lookup_by_value(e.index, e.records, field@, key.leaf());
            assert forall|x: u64| #[trigger] ids.contains(x) implies record_ids(e.records).contains(x) by {
                let j = choose|j: int| 0 <= j < e.records.len() && (#[trigger] e.records[j]).0 == x && holds_key(e.records[j].1, field@, key.leaf());
                lemma_holder_listed(e, x, j);
            }
            lemma_bucket_has_records(e, ids);
            lemma_collect_values(e.records, ids);
            lemma_entry_remove_records(e, ids);
        }
        let indices = self.indexer.all_indices_by_value(field, key);
        let r = self.remove_records(&indices);
        proof {
            assert forall|q: int| 0 <= q < r@.len() implies holds_key((#[trigger] r@[q])@, field@, key.leaf()) by {
                let x = ids[q];
                assert(ids.contains(x));
                let j = choose|j: int| 0 <= j < e.records.len() && (#[trigger] e.records[j]).0 == x && holds_key(e.records[j].1, field@, key.leaf());
                lemma_holder_listed(e, x, j);
            }
            let f = self@;
            assert forall|j: int| 0 <= j < f.records.len() implies !holds_key(#[trigger] f.records[j].1, field@, key.leaf()) by {
                assert(f.records.contains(f.records[j]));
                let j0 = choose|j0: int| 0 <= j0 < e.records.len() && e.records[j0] == f.records[j];
                if holds_key(f.records[j].1, field@, key.leaf()) {
                    assert(some_holds(e.records, e.records[j0].0, field@, key.leaf()));
                }
            }
            assert forall|j: int| 0 <= j < e.records.len() && !holds_key(#[trigger] e.records[j].1, field@, key.leaf())
                implies f.records.contains(e.records[j]) by {
                assert(e.records.contains(e.records[j]));
                if ids.contains(e.records[j].0) {
                    let j2 = choose|j2: int| 0 <= j2 < e.records.len() && (#[trigger] e.records[j2]).0 == e.records[j].0 && holds_key(e.records[j2].1, field@, key.leaf());
                    assert(record_ids(e.records)[j] == e.records[j].0);
                    assert(record_ids(e.records)[j2] == e.records[j2].0);
                }
            }
        }
        r
    }
}
/// Whether record value `v` holds, at `field`, a key in range `r`.
pub open spec fn holds_in_range(v: JsonView, field: Seq<char>, r: RangeView) -> bool {
    json_leaf(field_value(v, field)) matches Some(k) && crate::ordered::in_range(k, r)
}

/// Lookup of records by a range of values of a field, for keys of type `U`.
pub trait RangeLookupEntry<U: LeafType>: View<V = EntryView> {
    /// The document of the first record whose `field` lies in `range`.
    fn get_by_range(&self, field: &str, range: &KeyRange<U>) -> (r: Option<JsonValue>)
        requires
            entry_wf(self@),
            lookup_ok(self@.index, field@, U::kind()),
            range_query_ok(self@.index, field@, range.view_range()),
        ensures
            r matches Some(v) ==> entry_first_by_range(self@, field@, range.view_range()) == Some(v@),
            r is None ==> entry_first_by_range(self@, field@, range.view_range()) is None,
            r matches Some(v) ==> holds_in_range(v@, field@, range.view_range()),
            r is None <==> forall|j: int| 0 <= j < self@.records.len() ==> !holds_in_range(#[trigger] self@.records[j].1, field@, range.view_range()),
    ;

    /// The documents of all records whose `field` lies in `range`.
    fn get_all_by_range(&self, field: &str, range: &KeyRange<U>) -> (r: Vec<JsonValue>)
        requires
            entry_wf(self@),
            lookup_ok(self@.index, field@, U::kind()),
            range_query_ok(self@.index, field@, range.view_range()),
        ensures
            r@.len() == index_all_by_range(self@.index, field@, range.view_range()).len(),
            forall|q: int| 0 <= q < r@.len() ==> (#[trigger] r@[q])@ == collect_values(self@.records, index_all_by_range(self@.index, field@, range.view_range()))[q],
            forall|q: int| 0 <= q < r@.len() ==> holds_in_range((#[trigger] r@[q])@, field@, range.view_range()),
            forall|j: int| 0 <= j < self@.records.len() && holds_in_range(#[trigger] self@.records[j].1, field@, range.view_range())
                ==> exists|q: int| 0 <= q < r@.len() && (#[trigger] r@[q])@ == self@.records[j].1,
    ;

    /// Removes the first record whose `field` lies in `range` and returns its document.
    fn remove_by_range(&mut self, field: &str, range: &KeyRange<U>) -> (r: Option<JsonValue>)
        requires
            entry_wf(old(self)@),
            lookup_ok(old(self)@.index, field@, U::kind()),
            range_query_ok(old(self)@.index, field@, range.view_range()),
        ensures
            entry_wf(final(self)@),
            final(self)@ == (match index_first_by_range(old(self)@.index, field@, range.view_range()) {
                Some(x) => entry_remove_record(old(self)@, x),
                None => old(self)@,
            }),
            r matches Some(v) ==> entry_first_by_range(old(self)@, field@, range.view_range()) == Some(v@),
            r is None ==> entry_first_by_range(old(self)@, field@, range.view_range()) is None,
            r matches Some(v) ==> holds_in_range(v@, field@, range.view_range()),
            r is None <==> forall|j: int| 0 <= j < old(self)@.records.len() ==> !holds_in_range(#[trigger] old(self)@.records[j].1, field@, range.view_range()),
    ;

    /// Removes all records whose `field` lies in `range` and returns their documents.
    fn remove_all_by_range(&mut self, field: &str, range: &KeyRange<U>) -> (r: Vec<JsonValue>)
        requires
            entry_wf(old(self)@),
            lookup_ok(old(self)@.index, field@, U::kind()),
            range_query_ok(old(self)@.index, field@, range.view_range()),
        ensures
            entry_wf(final(self)@),
            final(self)@ == entry_remove_records(old(self)@, index_all_by_range(old(self)@.index, field@, range.view_range())),
            r@.len() == index_all_by_range(old(self)@.index, field@, range.view_range()).len(),
            forall|q: int| 0 <= q < r@.len() ==> (#[trigger] r@[q])@ == collect_values(old(self)@.records, index_all_by_range(old(self)@.index, field@, range.view_range()))[q],
            forall|q: int| 0 <= q < r@.len() ==> holds_in_range((#[trigger] r@[q])@, field@, range.view_range()),
            forall|j: int| 0 <= j < final(self)@.records.len() ==> !holds_in_range(#[trigger] final(self)@.records[j].1, field@, range.view_range()),
            forall|j: int| 0 <= j < old(self)@.records.len() && !holds_in_range(#[trigger] old(self)@.records[j].1, field@, range.view_range())
                ==> final(self)@.records.contains(old(self)@.records[j]),
    ;
}

impl Entry {
    pub fn find_by_range<U: LeafType>(&self, field: &str, range: &KeyRange<U>) -> (r: Option<JsonValue>)
        requires
            entry_wf(self@),
            lookup_ok(self@.index, field@, U::kind()),
            range_query_ok(self@.index, field@, range.view_range()),
        ensures
            r matches Some(v) ==> entry_first_by_range(self@, field@, range.view_range()) == Some(v@),
            r is None ==> entry_first_by_range(self@, field@, range.view_range()) is None,
            r matches Some(v) ==> holds_in_range(v@, field@, range.view_range()),
            r is None <==> forall|j: int| 0 <= j < self@.records.len() ==> !holds_in_range(#[trigger] self@.records[j].1, field@, range.view_range()),
    {
        let ghost e = self@;
        proof {
            crate::index_laws::lemma_lookup_by_range(e.index, e.records, field@, range.view_range());
        }
        let index = self.indexer.first_index_by_range(field, range);
        match index {
            Some(i) => {
                proof {
                    let j = choose|j: int| 0 <= j < e.records.len() && (#[trigger] e.records[j]).0 == i && holds_in_range(e.records[j].1, field@, range.view_range());
                    lemma_holder_listed(e, i, j);
                }
                let r = self.get_value_from_index(&i);
                proof {
                    assert(r is Some);
                    assert(!(forall|j: int| 0 <= j < e.records.len() ==> !holds_in_range(#[trigger] e.records[j].1, field@, range.view_range())));
                }
                r
            },
            None => {
                proof {
                    assert forall|j: int| 0 <= j < e.records.len() implies !holds_in_range(#[trigger] e.records[j].1, field@, range.view_range()) by {
                        assert(!some_in_range(e.records, e.records[j].0, field@, range.view_range()));
                    }
                }
                None
            },
        }
    }

    pub fn find_all_by_range<U: LeafType>(&self, field: &str, range: &KeyRange<U>) -> (r: Vec<JsonValue>)
        requires
            entry_wf(self@),
            lookup_ok(self@.index, field@, U::kind()),
            range_query_ok(self@.index, field@, range.view_range()),
        ensures
            r@.len() == index_all_by_range(self@.index, field@, range.view_range()).len(),
            r@.len() == collect_values(self@.records, index_all_by_range(self@.index, field@, range.view_range())).len(),
            forall|q: int| 0 <= q < r@.len() ==> (#[trigger] r@[q])@ == collect_values(self@.records, index_all_by_range(self@.index, field@, range.view_range()))[q],
            forall|q: int| 0 <= q < r@.len() ==> holds_in_range((#[trigger] r@[q])@, field@, range.view_range()),
            forall|j: int| 0 <= j < self@.records.len() && holds_in_range(#[trigger] self@.records[j].1, field@, range.view_range())
                ==> exists|q: int| 0 <= q < r@.len() && (#[trigger] r@[q])@ == self@.records[j].1,
    {
        let ghost e = self@;
        let ghost ids = index_all_by_range(e.index, field@, range.view_range());
        proof {
            crate::index_laws::lemma_lookup_by_range(e.index, e.records, field@, range.view_range());
            assert forall|x: u64| #[trigger] ids.contains(x) implies record_ids(e.records).contains(x) by {
                let j = choose|j: int| 0 <= j < e.records.len() && (#[trigger] e.records[j]).0 == x && holds_in_range(e.records[j].1, field@, range.view_range());
                lemma_holder_listed(e, x, j);
            }
            lemma_bucket_has_records(e, ids);
            lemma_collect_values(e.records, ids);
        }
        let indices = self.indexer.all_indices_by_range(field, range);
        let r = self.values_of(&indices);
        proof {
            assert forall|q: int| 0 <= q < r@.len() implies holds_in_range((#[trigger] r@[q])@, field@, range.view_range()) by {
                let x = ids[q];
                assert(ids.contains(x));
                let j = choose|j: int| 0 <= j < e.records.len() && (#[trigger] e.records[j]).0 == x && holds_in_range(e.records[j].1, field@, range.view_range());
                lemma_holder_listed(e, x, j);
            }
            assert forall|j: int| 0 <= j < e.records.len() && holds_in_range(#[trigger] e.records[j].1, field@, range.view_range())
                implies exists|q: int| 0 <= q < r@.len() && (#[trigger] r@[q])@ == e.records[j].1 by {
                let x = e.records[j].0;
                assert(some_in_range(e.records, x, field@, range.view_range()));
                assert(ids.contains(x));
                let q = choose|q: int| 0 <= q < ids.len() && ids[q] == x;
                lemma_holder_listed(e, x, j);
                assert(r@[q]@ == e.records[j].1);
            }
        }
        r
    }

    pub fn take_by_range<U: LeafType>(&mut self, field: &str, range: &KeyRange<U>) -> (r: Option<JsonValue>)
        requires
            entry_wf(old(self)@),
            lookup_ok(old(self)@.index, field@, U::kind()),
            range_query_ok(old(self)@.index, field@, range.view_range()),
        ensures
            entry_wf(final(self)@),
            final(self)@ == (match index_first_by_range(old(self)@.index, field@, range.view_range()) {
                Some(x) => entry_remove_record(old(self)@, x),
                None => old(self)@,
            }),
            r matches Some(v) ==> entry_first_by_range(old(self)@, field@, range.view_range()) == Some(v@),
            r is None ==> entry_first_by_range(old(self)@, field@, range.view_range()) is None,
            r matches Some(v) ==> holds_in_range(v@, field@, range.view_range()),
            r is None <==> forall|j: int| 0 <= j < old(self)@.records.len() ==> !holds_in_range(#[trigger] old(self)@.records[j].1, field@, range.view_range()),
    {
        let ghost e = self@;
        proof {
            crate::index_laws::lemma_lookup_by_range(e.index, e.records, field@, range.view_range());
        }
        let index = self.indexer.first_index_by_range(field, range);
        match index {
            Some(i) => {
                proof {
                    let j = choose|j: int| 0 <= j < e.records.len() && (#[trigger] e.records[j]).0 == i && holds_in_range(e.records[j].1, field@, range.view_range());
                    lemma_holder_listed(e, i, j);
                    assert(!(forall|j: int| 0 <= j < e.records.len() ==> !holds_in_range(#[trigger] e.records[j].1, field@, range.view_range())));
                }
                self.remove_record(i)
            },
            None => {
                proof {
                    assert forall|j: int| 0 <= j < e.records.len() implies !holds_in_range(#[trigger] e.records[j].1, field@, range.view_range()) by {
                        assert(!some_in_range(e.records, e.records[j].0, field@, range.view_range()));
                    }
                }
                None
            },
        }
    }

    pub fn take_all_by_range<U: LeafType>(&mut self, field: &str, range: &KeyRange<U>) -> (r: Vec<JsonValue>)
        requires
            entry_wf(old(self)@),
            lookup_ok(old(self)@.index, field@, U::kind()),
            range_query_ok(old(self)@.index, field@, range.view_range()),
        ensures
            entry_wf(final(self)@),
            final(self)@ == entry_remove_records(old(self)@, index_all_by_range(old(self)@.index, field@, range.view_range())),
            r@.len() == index_all_by_range(old(self)@.index, field@, range.view_range()).len(),
            r@.len() == collect_values(old(self)@.records, index_all_by_range(old(self)@.index, field@, range.view_range())).len(),
            forall|q: int| 0 <= q < r@.len() ==> (#[trigger] r@[q])@ == collect_values(old(self)@.records, index_all_by_range(old(self)@.index, field@, range.view_range()))[q],
            forall|q: int| 0 <= q < r@.len() ==> holds_in_range((#[trigger] r@[q])@, field@, range.view_range()),
            forall|j: int| 0 <= j < final(self)@.records.len() ==> !holds_in_range(#[trigger] final(self)@.records[j].1, field@, range.view_range()),
            forall|j: int| 0 <= j < old(self)@.records.len() && !holds_in_range(#[trigger] old(self)@.records[j].1, field@, range.view_range())
                ==> final(self)@.records.contains(old(self)@.records[j]),
    {
        let ghost e = self@;
        let ghost ids = index_all_by_range(e.index, field@, range.view_range());
        proof {
            crate::index_laws::lemma_lookup_by_range(e.index, e.records, field@, range.view_range());
            assert forall|x: u64| #[trigger] ids.contains(x) implies record_ids(e.records).contains(x) by {
                let j = choose|j: int| 0 <= j < e.records.len() && (#[trigger] e.records[j]).0 == x && holds_in_range(e.records[j].1, field@, range.view_range());
                lemma_holder_listed(e, x, j);
            }
            lemma_bucket_has_records(e, ids);
            lemma_collect_values(e.records, ids);
            lemma_entry_remove_records(e, ids);
        }
        let indices = self.indexer.all_indices_by_range(field, range);
        let r = self.remove_records(&indices);
        proof {
            assert forall|q: int| 0 <= q < r@.len() implies holds_in_range((#[trigger] r@[q])@, field@, range.view_range()) by {
                let x = ids[q];
                assert(ids.contains(x));
                let j = choose|j: int| 0 <= j < e.records.len() && (#[trigger] e.records[j]).0 == x && holds_in_range(e.records[j].1, field@, range.view_range());
                lemma_holder_listed(e, x, j);
            }
            let f = self@;
            assert forall|j: int| 0 <= j < f.records.len() implies !holds_in_range(#[trigger] f.records[j].1, field@, range.view_range()) by {
                assert(f.records.contains(f.records[j]));
                let j0 = choose|j0: int| 0 <= j0 < e.records.len() && e.records[j0] == f.records[j];
                if holds_in_range(f.records[j].1, field@, range.view_range()) {
                    assert(some_in_range(e.records, e.records[j0].0, field@, range.view_range()));
                }
            }
            assert forall|j: int| 0 <= j < e.records.len() && !holds_in_range(#[trigger] e.records[j].1, field@, range.view_range())
                implies f.records.contains(e.records[j]) by {
                assert(e.records.contains(e.records[j]));
                if ids.contains(e.records[j].0) {
                    let j2 = choose|j2: int| 0 <= j2 < e.records.len() && (#[trigger] e.records[j2]).0 == e.records[j].0 && holds_in_range(e.records[j2].1, field@, range.view_range());
                    assert(record_ids(e.records)[j] == e.records[j].0);
                    assert(record_ids(e.records)[j2] == e.records[j2].0);
                }
            }
        }
        r
    }
}
impl ValueLookupEntry<i64> for Entry {
    fn get_by_value(&self, field: &str, key: &i64) -> (r: Option<JsonValue>) {
        self.find_by_value(field, key)
    }

    fn get_all_by_value(&self, field: &str, key: &i64) -> (r: Vec<JsonValue>) {
        self.find_all_by_value(field, key)
    }

    fn remove_by_value(&mut self, field: &str, key: &i64) -> (r: Option<JsonValue>) {
        self.take_by_value(field, key)
    }

    fn remove_all_by_value(&mut self, field: &str, key: &i64) -> (r: Vec<JsonValue>) {
        self.take_all_by_value(field, key)
    }
}

impl ValueLookupEntry<String> for Entry {
    fn get_by_value(&self, field: &str, key: &String) -> (r: Option<JsonValue>) {
        self.find_by_value(field, key)
    }

    fn get_all_by_value(&self, field: &str, key: &String) -> (r: Vec<JsonValue>) {
        self.find_all_by_value(field, key)
    }

    fn remove_by_value(&mut self, field: &str, key: &String) -> (r: Option<JsonValue>) {
        self.take_by_value(field, key)
    }

    fn remove_all_by_value(&mut self, field: &str, key: &String) -> (r: Vec<JsonValue>) {
        self.take_all_by_value(field, key)
    }
}

impl ValueLookupEntry<bool> for Entry {
    fn get_by_value(&self, field: &str, key: &bool) -> (r: Option<JsonValue>) {
        self.find_by_value(field, key)
    }

    fn get_all_by_value(&self, field: &str, key: &bool) -> (r: Vec<JsonValue>) {
        self.find_all_by_value(field, key)
    }

    fn remove_by_value(&mut self, field: &str, key: &bool) -> (r: Option<JsonValue>) {
        self.take_by_value(field, key)
    }

    fn remove_all_by_value(&mut self, field: &str, key: &bool) -> (r: Vec<JsonValue>) {
        self.take_all_by_value(field, key)
    }
}

impl ValueLookupEntry<FloatKey> for Entry {
    fn get_by_value(&self, field: &str, key: &FloatKey) -> (r: Option<JsonValue>) {
        self.find_by_value(field, key)
    }

    fn get_all_by_value(&self, field: &str, key: &FloatKey) -> (r: Vec<JsonValue>) {
        self.find_all_by_value(field, key)
    }

    fn remove_by_value(&mut self, field: &str, key: &FloatKey) -> (r: Option<JsonValue>) {
        self.take_by_value(field, key)
    }

    fn remove_all_by_value(&mut self, field: &str, key: &FloatKey) -> (r: Vec<JsonValue>) {
        self.take_all_by_value(field, key)
    }
}

impl RangeLookupEntry<i64> for Entry {
    fn get_by_range(&self, field: &str, range: &KeyRange<i64>) -> (r: Option<JsonValue>) {
        self.find_by_range(field, range)
    }

    fn get_all_by_range(&self, field: &str, range: &KeyRange<i64>) -> (r: Vec<JsonValue>) {
        self.find_all_by_range(field, range)
    }

    fn remove_by_range(&mut self, field: &str, range: &KeyRange<i64>) -> (r: Option<JsonValue>) {
        self.take_by_range(field, range)
    }

    fn remove_all_by_range(&mut self, field: &str, range: &KeyRange<i64>) -> (r: Vec<JsonValue>) {
        self.take_all_by_range(field, range)
    }
}

impl RangeLookupEntry<String> for Entry {
    fn get_by_range(&self, field: &str, range: &KeyRange<String>) -> (r: Option<JsonValue>) {
        self.find_by_range(field, range)
    }

    fn get_all_by_range(&self, field: &str, range: &KeyRange<String>) -> (r: Vec<JsonValue>) {
        self.find_all_by_range(field, range)
    }

    fn remove_by_range(&mut self, field: &str, range: &KeyRange<String>) -> (r: Option<JsonValue>) {
        self.take_by_range(field, range)
    }

    fn remove_all_by_range(&mut self, field: &str, range: &KeyRange<String>) -> (r: Vec<JsonValue>) {
        self.take_all_by_range(field, range)
    }
}

impl RangeLookupEntry<FloatKey> for Entry {
    fn get_by_range(&self, field: &str, range: &KeyRange<FloatKey>) -> (r: Option<JsonValue>) {
        self.find_by_range(field, range)
    }

    fn get_all_by_range(&self, field: &str, range: &KeyRange<FloatKey>) -> (r: Vec<JsonValue>) {
        self.find_all_by_range(field, range)
    }

    fn remove_by_range(&mut self, field: &str, range: &KeyRange<FloatKey>) -> (r: Option<JsonValue>) {
        self.take_by_range(field, range)
    }

    fn remove_all_by_range(&mut self, field: &str, range: &KeyRange<FloatKey>) -> (r: Vec<JsonValue>) {
        self.take_all_by_range(field, range)
    }
}


impl Entry {
    /// Whether flattened document `v` can be added: a record number is left
    /// and no field clashes with the kind already indexed there.
    pub fn can_add(&self, v: &JsonValue) -> (r: bool)
        requires
            entry_wf(self@),
            flat(v@),
        ensures
            r == (self@.counter < u64::MAX && add_ok(self@.index, v@)),
    {
        self.counter < 18446744073709551615u64 && self.indexer.can_add(v)
    }

    /// Whether a lookup of `field` with keys of kind `K` is accepted.
    pub fn can_lookup<K: LeafType>(&self, field: &str) -> (r: bool)
        requires
            entry_wf(self@),
        ensures
            r == lookup_ok(self@.index, field@, K::kind()),
    {
        self.indexer.can_lookup::<K>(field)
    }

    /// Whether a range lookup of `field` with `range` is accepted.
    pub fn can_lookup_range<K: LeafType>(&self, field: &str, range: &KeyRange<K>) -> (r: bool)
        requires
            entry_wf(self@),
        ensures
            r == (lookup_ok(self@.index, field@, K::kind()) && range_query_ok(self@.index, field@, range.view_range())),
    {
        self.indexer.can_lookup::<K>(field) && (!self.indexer.selects_leaf(field) || range.is_well_formed())
    }
}

/// The entry of a type that has none yet.
pub open spec fn empty_entry() -> EntryView {
    EntryView { counter: 0, records: Seq::empty(), index: IndexView::Null }
}

impl Entry {
    /// Whether this entry has no records, no index and a zero counter.
    pub fn is_empty_entry(&self) -> (r: bool)
        ensures
            r == (self@ == empty_entry()),
    {
        let none = index_map_len(&self.value_map) == 0;
        proof {
            lemma_view_records(index_map_items(self.value_map));
            if none {
                assert(self@.records =~= Seq::<(u64, JsonView)>::empty());
            }
        }
        self.counter == 0 && none && match &self.indexer {
            ValueIndexer::Null => true,
            _ => false,
        }
    }
}
} // verus!
