//! The object space: the records of every type, kept apart by type.
//!
//! Each type has its own entry (see `entry`). A document written to the
//! space is flattened first; reads hand back the stored records with their
//! nesting rebuilt (see `flat::deflatten_spec`), or `InvalidRecord` when a
//! record cannot be rebuilt.

use crate::entry::{
    collect_values, entry_first_by_range, entry_first_by_value, entry_remove_record,
    empty_entry, entry_remove_records, entry_wf, holds_in_range, range_query_ok, Entry, EntryView,
};
use crate::flat::{deflatten_spec, flatten, flatten_spec, try_deflatten};
use crate::index_laws::holds_key;
use crate::indexer::{
    add_ok, index_all_by_range, index_all_by_value, index_first_by_range, index_first_by_value,
    lookup_ok, node_add, IndexView, LeafType,
};
use crate::json::{JsonValue, JsonView};
use crate::ordered::{IndexKey, KeyRange};
use chashmap::CHashMap;
use std::any::TypeId;
use vstd::prelude::*;

verus! {

#[verifier::external_type_specification]
#[verifier::external_body]
#[verifier::reject_recursive_types(K)]
#[verifier::reject_recursive_types(V)]
pub struct ExCHashMap<K, V>(CHashMap<K, V>);

/// The entries held by a `CHashMap<TypeId, Entry>`, by type.
pub uninterp spec fn type_entries(m: CHashMap<TypeId, Entry>) -> Map<TypeId, Entry>;

/// Calls `CHashMap::new`: the new map is empty.
#[verifier::external_body]
fn type_map_new() -> (r: CHashMap<TypeId, Entry>)
    ensures
        type_entries(r).dom() =~= Set::<TypeId>::empty(),
{
    CHashMap::new()
}

/// Calls `CHashMap::insert`: `k` now maps to `v`; the value it mapped to
/// before, if any, is returned. It does not panic: its search for the key
/// or a free bucket ends, as the table grows before it fills up.
#[verifier::external_body]
fn type_map_insert(m: &mut CHashMap<TypeId, Entry>, k: TypeId, v: Entry) -> (r: Option<Entry>)
    ensures
        type_entries(*final(m)) == type_entries(*old(m)).insert(k, v),
        r == (if type_entries(*old(m)).contains_key(k) {
            Some(type_entries(*old(m))[k])
        } else {
            None
        }),
    no_unwind
{
    m.insert(k, v)
}

/// The entry of type `t` (empty when the type has none).
pub open spec fn entry_of(m: Map<TypeId, EntryView>, t: TypeId) -> EntryView {
    if m.contains_key(t) {
        m[t]
    } else {
        empty_entry()
    }
}

/// Every entry of the space is well formed and holds something: a type
/// whose entry is empty has none.
pub open spec fn space_wf(m: Map<TypeId, EntryView>) -> bool {
    forall|t: TypeId| #[trigger] m.contains_key(t) ==> entry_wf(m[t]) && m[t] != empty_entry()
}

/// Whether document `v` can be written to entry `e`: a record number is left
/// and no field of the flattened document clashes with the kind already
/// indexed there.
pub open spec fn write_ok(e: EntryView, v: JsonView) -> bool {
    e.counter < u64::MAX && add_ok(e.index, flatten_spec(v))
}

/// Entry `e` after writing document `v`.
pub open spec fn entry_after_write(e: EntryView, v: JsonView) -> EntryView {
    EntryView {
        counter: e.counter + 1,
        records: e.records.push(((e.counter + 1) as u64, flatten_spec(v))),
        index: node_add(e.index, flatten_spec(v), (e.counter + 1) as u64),
    }
}

/// The space after replacing the entry of `t` by `e`: a type whose entry
/// is empty has none.
pub open spec fn with_entry(m: Map<TypeId, EntryView>, t: TypeId, e: EntryView) -> Map<TypeId, EntryView> {
    if e == empty_entry() {
        m.remove(t)
    } else {
        m.insert(t, e)
    }
}

/// Replacing an entry does not depend on the entry it replaces.
proof fn lemma_with_entry_removed(m: Map<TypeId, EntryView>, t: TypeId, e: EntryView)
    ensures
        with_entry(m.remove(t), t, e) == with_entry(m, t, e),
{
    assert(with_entry(m.remove(t), t, e) =~= with_entry(m, t, e));
}

/// Putting back the entry a type has changes nothing.
proof fn lemma_with_entry_same(m: Map<TypeId, EntryView>, t: TypeId)
    requires
        space_wf(m),
    ensures
        with_entry(m, t, entry_of(m, t)) == m,
{
    assert(with_entry(m, t, entry_of(m, t)) =~= m);
}

/// An object space holding documents of many types.
pub struct TreeObjectSpace {
    typeid_entries_dict: CHashMap<TypeId, Entry>,
}

/// The entries of types that hold something, by type.
pub closed spec fn entries_view(m: Map<TypeId, Entry>) -> Map<TypeId, EntryView> {
    Map::new(|t: TypeId| m.contains_key(t) && m[t]@ != empty_entry(), |t: TypeId| m[t]@)
}

/// Setting the entry of `t` to `e` gives the space with that entry.
proof fn lemma_entries_insert(m: Map<TypeId, Entry>, t: TypeId, e: Entry)
    ensures
        entries_view(m.insert(t, e)) == with_entry(entries_view(m), t, e@),
{
    assert(entries_view(m.insert(t, e)) =~= with_entry(entries_view(m), t, e@));
}

impl View for TreeObjectSpace {
    type V = Map<TypeId, EntryView>;

    closed spec fn view(&self) -> Map<TypeId, EntryView> {
        entries_view(type_entries(self.typeid_entries_dict))
    }
}

proof fn lemma_empty_entry_wf()
    ensures
        entry_wf(empty_entry()),
{
    assert(crate::index_laws::record_ids(empty_entry().records) =~= Seq::<u64>::empty());
    assert forall|f: Seq<char>, k: crate::ordered::LeafKey| #[trigger] index_all_by_value(IndexView::Null, f, k) == Seq::<u64>::empty() by {}
    assert forall|f: Seq<char>| #[trigger] crate::index_laws::vec_at(IndexView::Null, f) == Seq::<u64>::empty() by {}
}

impl TreeObjectSpace {
    /// Every entry is well formed and holds something.
    #[verifier::type_invariant]
    spec fn space_ok(self) -> bool {
        space_wf(self@)
    }

    /// An empty space.
    pub fn new() -> (r: TreeObjectSpace)
        ensures
            r@ == Map::<TypeId, EntryView>::empty(),
            space_wf(r@),
    {
        let r = TreeObjectSpace { typeid_entries_dict: type_map_new() };
        assert(r@ =~= Map::<TypeId, EntryView>::empty());
        r
    }

    /// Takes the entry of `t` out of the space, leaving an empty entry in its
    /// place; whether the type had records or a record number (`r.1`).
    fn take_entry(&mut self, t: &TypeId) -> (r: (Entry, bool))
        ensures
            r.0@ == entry_of(old(self)@, *t),
            r.1 == old(self)@.contains_key(*t),
            entry_wf(r.0@),
            final(self)@ == old(self)@.remove(*t),
            space_wf(final(self)@),
    {
        proof {
            use_type_invariant(&*self);
        }
        proof {
            lemma_empty_entry_wf();
        }
        let fresh = Entry::new();
        proof {
            assert(fresh@ == empty_entry());
            let m0 = type_entries(self.typeid_entries_dict);
            assert forall|m2: Map<TypeId, Entry>| m2 == m0.insert(*t, fresh) implies #[trigger] space_wf(entries_view(m2)) by {
                lemma_entries_insert(m0, *t, fresh);
            }
        }
        match type_map_insert(&mut self.typeid_entries_dict, *t, fresh) {
            Some(e) => {
                let had = !e.is_empty_entry();
                assert(self@ =~= old(self)@.remove(*t));
                (e, had)
            },
            None => {
                assert(self@ =~= old(self)@.remove(*t));
                (Entry::new(), false)
            },
        }
    }

    /// Puts entry `e` in as the entry of `t`.
    fn put_entry(&mut self, t: TypeId, e: Entry)
        requires
            entry_wf(e@),
        ensures
            final(self)@ == with_entry(old(self)@, t, e@),
            space_wf(final(self)@),
    {
        proof {
            use_type_invariant(&*self);
        }
        let ghost ev = e@;
        proof {
            let m0 = type_entries(self.typeid_entries_dict);
            assert forall|m2: Map<TypeId, Entry>| m2 == m0.insert(t, e) implies #[trigger] space_wf(entries_view(m2)) by {
                lemma_entries_insert(m0, t, e);
            }
        }
        type_map_insert(&mut self.typeid_entries_dict, t, e);
        proof {
            lemma_entries_insert(type_entries(old(self).typeid_entries_dict), t, e);
        }
    }

    /// Makes sure type `id` has an entry. A type without records or record
    /// numbers reads as an empty entry either way, so no reading changes.
    pub fn add_entry(&mut self, id: TypeId)
        ensures
            space_wf(final(self)@),
            final(self)@ == old(self)@,
    {
        proof {
            use_type_invariant(&*self);
        }
        let (e, _had) = self.take_entry(&id);
        self.put_entry(id, e);
        proof {
            lemma_with_entry_removed(old(self)@, id, entry_of(old(self)@, id));
            lemma_with_entry_same(old(self)@, id);
        }
    }

    /// Whether document `obj` can be written as a record of type `type_id`.
    pub fn can_write(&mut self, type_id: TypeId, obj: &JsonValue) -> (r: bool)
        ensures
            final(self)@ == old(self)@,
            r == write_ok(entry_of(old(self)@, type_id), obj@),
    {
        proof {
            use_type_invariant(&*self);
        }
        let (e, had) = self.take_entry(&type_id);
        let value = flatten(obj.copy());
        let ok = e.can_add(&value);
        self.put_entry(type_id, e);
        assert(self@ =~= old(self)@);
        ok
    }

    /// Writes document `obj`, flattened, as a new record of type `type_id`.
    pub fn write(&mut self, type_id: TypeId, obj: JsonValue)
        requires
            write_ok(entry_of(old(self)@, type_id), obj@),
        ensures
            space_wf(final(self)@),
            final(self)@ == old(self)@.insert(
                type_id,
                entry_after_write(entry_of(old(self)@, type_id), obj@),
            ),
    {
        proof {
            use_type_invariant(&*self);
        }
        self.add_entry(type_id);
        let value = flatten(obj);
        let (mut e, _had) = self.take_entry(&type_id);
        e.add(value);
        self.put_entry(type_id, e);
        assert(self@ =~= old(self)@.insert(type_id, entry_after_write(entry_of(old(self)@, type_id), obj@)));
    }

    /// A copy of the first record of type `type_id`, if any.
    fn try_read_record(&mut self, type_id: TypeId) -> (r: Option<JsonValue>)
        ensures
            final(self)@ == old(self)@,
            entry_of(old(self)@, type_id).records.len() == 0 ==> r is None,
            entry_of(old(self)@, type_id).records.len() > 0 ==> (r matches Some(v) && v@
                == entry_of(old(self)@, type_id).records[0].1),
    {
        proof {
            use_type_invariant(&*self);
        }
        let (e, had) = self.take_entry(&type_id);
        let r = e.get();
        self.put_entry(type_id, e);
        assert(self@ =~= old(self)@);
        r
    }

    /// Copies of all records of type `type_id`, in order.
    fn read_all_records(&mut self, type_id: TypeId) -> (r: Vec<JsonValue>)
        ensures
            final(self)@ == old(self)@,
            r@.len() == entry_of(old(self)@, type_id).records.len(),
            forall|j: int| 0 <= j < r@.len() ==> (#[trigger] r@[j])@ == entry_of(old(self)@, type_id).records[j].1,
    {
        proof {
            use_type_invariant(&*self);
        }
        let (e, had) = self.take_entry(&type_id);
        let r = e.get_all();
        self.put_entry(type_id, e);
        assert(self@ =~= old(self)@);
        r
    }

    /// Removes and returns the last record of type `type_id`, if any.
    fn try_take_record(&mut self, type_id: TypeId) -> (r: Option<JsonValue>)
        ensures
            space_wf(final(self)@),
            entry_of(old(self)@, type_id).records.len() == 0 ==> r is None && final(self)@ == old(self)@,
            entry_of(old(self)@, type_id).records.len() > 0 ==> (r matches Some(v) && v@
                == entry_of(old(self)@, type_id).records.last().1 && final(self)@ == old(self)@.insert(
                type_id,
                entry_remove_record(entry_of(old(self)@, type_id), entry_of(old(self)@, type_id).records.last().0),
            )),
    {
        proof {
            use_type_invariant(&*self);
        }
        let (mut e, had) = self.take_entry(&type_id);
        let r = e.remove();
        self.put_entry(type_id, e);
        proof {
            if !had {
                assert(entry_of(old(self)@, type_id).records.len() == 0);
            }
            if entry_of(old(self)@, type_id).records.len() == 0 {
                assert(self@ =~= old(self)@);
            }
        }
        r
    }

    /// Removes and returns all records of type `type_id`, in order.
    fn take_all_records(&mut self, type_id: TypeId) -> (r: Vec<JsonValue>)
        ensures
            space_wf(final(self)@),
            r@.len() == entry_of(old(self)@, type_id).records.len(),
            forall|j: int| 0 <= j < r@.len() ==> (#[trigger] r@[j])@ == entry_of(old(self)@, type_id).records[j].1,
            final(self)@ == with_entry(old(self)@, type_id, empty_entry()),
    {
        proof {
            use_type_invariant(&*self);
        }
        let (mut e, _had) = self.take_entry(&type_id);
        let r = e.remove_all();
        self.put_entry(type_id, e);
        proof {
            lemma_with_entry_removed(old(self)@, type_id, empty_entry());
        }
        r
    }
}


impl TreeObjectSpace {
    /// Whether a lookup of `field` with keys of kind `K` is accepted for type `type_id`.
    pub fn can_lookup<K: LeafType>(&mut self, type_id: TypeId, field: &str) -> (r: bool)
        ensures
            final(self)@ == old(self)@,
            r == lookup_ok(entry_of(old(self)@, type_id).index, field@, K::kind()),
    {
        proof {
            use_type_invariant(&*self);
        }
        let (e, had) = self.take_entry(&type_id);
        let r = e.can_lookup::<K>(field);
        self.put_entry(type_id, e);
        assert(self@ =~= old(self)@);
        r
    }

    /// Whether a range lookup of `field` with `range` is accepted for type `type_id`.
    pub fn can_lookup_range<K: LeafType>(&mut self, type_id: TypeId, field: &str, range: &KeyRange<K>) -> (r: bool)
        ensures
            final(self)@ == old(self)@,
            r == (lookup_ok(entry_of(old(self)@, type_id).index, field@, K::kind()) && range_query_ok(entry_of(old(self)@, type_id).index, field@, range.view_range())),
    {
        proof {
            use_type_invariant(&*self);
        }
        let (e, had) = self.take_entry(&type_id);
        let r = e.can_lookup_range(field, range);
        self.put_entry(type_id, e);
        assert(self@ =~= old(self)@);
        r
    }

    /// A copy of the first record of type `type_id` whose `field` holds `key`.
    fn try_read_record_by_value<K: LeafType>(&mut self, type_id: TypeId, field: &str, key: &K) -> (r: Option<JsonValue>)
        requires
            lookup_ok(entry_of(old(self)@, type_id).index, field@, K::kind()),
        ensures
            final(self)@ == old(self)@,
            r matches Some(v) ==> entry_first_by_value(entry_of(old(self)@, type_id), field@, key.leaf()) == Some(v@),
            r is None ==> entry_first_by_value(entry_of(old(self)@, type_id), field@, key.leaf()) is None,
            r matches Some(v) ==> holds_key(v@, field@, key.leaf()),
            r is None <==> forall|j: int| 0 <= j < entry_of(old(self)@, type_id).records.len() ==> !holds_key(#[trigger] entry_of(old(self)@, type_id).records[j].1, field@, key.leaf()),
    {
        proof {
            use_type_invariant(&*self);
        }
        let (e, had) = self.take_entry(&type_id);
        let r = e.find_by_value(field, key);
        self.put_entry(type_id, e);
        assert(self@ =~= old(self)@);
        r
    }

    /// Copies of all records of type `type_id` whose `field` holds `key`.
    fn read_all_records_by_value<K: LeafType>(&mut self, type_id: TypeId, field: &str, key: &K) -> (r: Vec<JsonValue>)
        requires
            lookup_ok(entry_of(old(self)@, type_id).index, field@, K::kind()),
        ensures
            final(self)@ == old(self)@,
            r@.len() == index_all_by_value(entry_of(old(self)@, type_id).index, field@, key.leaf()).len(),
            r@.len() == collect_values(entry_of(old(self)@, type_id).records, index_all_by_value(entry_of(old(self)@, type_id).index, field@, key.leaf())).len(),
            forall|q: int| 0 <= q < r@.len() ==> (#[trigger] r@[q])@ == collect_values(entry_of(old(self)@, type_id).records, index_all_by_value(entry_of(old(self)@, type_id).index, field@, key.leaf()))[q],
            forall|q: int| 0 <= q < r@.len() ==> holds_key((#[trigger] r@[q])@, field@, key.leaf()),
            forall|j: int| 0 <= j < entry_of(old(self)@, type_id).records.len() && holds_key(#[trigger] entry_of(old(self)@, type_id).records[j].1, field@, key.leaf())
                ==> exists|q: int| 0 <= q < r@.len() && (#[trigger] r@[q])@ == entry_of(old(self)@, type_id).records[j].1,
    {
        proof {
            use_type_invariant(&*self);
        }
        let (e, had) = self.take_entry(&type_id);
        let r = e.find_all_by_value(field, key);
        self.put_entry(type_id, e);
        assert(self@ =~= old(self)@);
        r
    }

    /// Removes and returns the first record of type `type_id` whose `field` holds `key`.
    fn try_take_record_by_value<K: LeafType>(&mut self, type_id: TypeId, field: &str, key: &K) -> (r: Option<JsonValue>)
        requires
            lookup_ok(entry_of(old(self)@, type_id).index, field@, K::kind()),
        ensures
            space_wf(final(self)@),
            final(self)@ == with_entry(old(self)@, type_id, match index_first_by_value(entry_of(old(self)@, type_id).index, field@, key.leaf()) {
                Some(x) => entry_remove_record(entry_of(old(self)@, type_id), x),
                None => entry_of(old(self)@, type_id),
            }),
            r matches Some(v) ==> entry_first_by_value(entry_of(old(self)@, type_id), field@, key.leaf()) == Some(v@),
            r is None ==> entry_first_by_value(entry_of(old(self)@, type_id), field@, key.leaf()) is None,
            r matches Some(v) ==> holds_key(v@, field@, key.leaf()),
            r is None <==> forall|j: int| 0 <= j < entry_of(old(self)@, type_id).records.len() ==> !holds_key(#[trigger] entry_of(old(self)@, type_id).records[j].1, field@, key.leaf()),
    {
        proof {
            use_type_invariant(&*self);
        }
        let (mut e, had) = self.take_entry(&type_id);
        let r = e.take_by_value(field, key);
        self.put_entry(type_id, e);
        proof {
            if !had {
                assert(index_first_by_value(entry_of(old(self)@, type_id).index, field@, key.leaf()) is None);
            }
        }
        r
    }

    /// Removes and returns all records of type `type_id` whose `field` holds `key`.
    fn take_all_records_by_value<K: LeafType>(&mut self, type_id: TypeId, field: &str, key: &K) -> (r: Vec<JsonValue>)
        requires
            lookup_ok(entry_of(old(self)@, type_id).index, field@, K::kind()),
        ensures
            space_wf(final(self)@),
            final(self)@ == with_entry(old(self)@, type_id, entry_remove_records(entry_of(old(self)@, type_id), index_all_by_value(entry_of(old(self)@, type_id).index, field@, key.leaf()))),
            r@.len() == index_all_by_value(entry_of(old(self)@, type_id).index, field@, key.leaf()).len(),
            r@.len() == collect_values(entry_of(old(self)@, type_id).records, index_all_by_value(entry_of(old(self)@, type_id).index, field@, key.leaf())).len(),
            forall|q: int| 0 <= q < r@.len() ==> (#[trigger] r@[q])@ == collect_values(entry_of(old(self)@, type_id).records, index_all_by_value(entry_of(old(self)@, type_id).index, field@, key.leaf()))[q],
            forall|q: int| 0 <= q < r@.len() ==> holds_key((#[trigger] r@[q])@, field@, key.leaf()),
            forall|j: int| 0 <= j < entry_of(final(self)@, type_id).records.len() ==> !holds_key(#[trigger] entry_of(final(self)@, type_id).records[j].1, field@, key.leaf()),
            forall|j: int| 0 <= j < entry_of(old(self)@, type_id).records.len() && !holds_key(#[trigger] entry_of(old(self)@, type_id).records[j].1, field@, key.leaf())
                ==> entry_of(final(self)@, type_id).records.contains(entry_of(old(self)@, type_id).records[j]),
    {
        proof {
            use_type_invariant(&*self);
        }
        let (mut e, had) = self.take_entry(&type_id);
        let ghost ev = e@;
        let r = e.take_all_by_value(field, key);
        let ghost ev2 = e@;
        self.put_entry(type_id, e);
        proof {
            if !had {
                assert(index_all_by_value(entry_of(old(self)@, type_id).index, field@, key.leaf()) =~= Seq::<u64>::empty());
                assert(entry_remove_records(ev, Seq::<u64>::empty()) == ev);
            }
            if ev2 == empty_entry() && !had {
                assert(entry_of(self@, type_id) == ev2);
            }
        }
        r
    }

    /// A copy of the first record of type `type_id` whose `field` lies in `range`.
    fn try_read_record_by_range<K: LeafType>(&mut self, type_id: TypeId, field: &str, range: &KeyRange<K>) -> (r: Option<JsonValue>)
        requires
            lookup_ok(entry_of(old(self)@, type_id).index, field@, K::kind()),
            range_query_ok(entry_of(old(self)@, type_id).index, field@, range.view_range()),
        ensures
            final(self)@ == old(self)@,
            r matches Some(v) ==> entry_first_by_range(entry_of(old(self)@, type_id), field@, range.view_range()) == Some(v@),
            r is None ==> entry_first_by_range(entry_of(old(self)@, type_id), field@, range.view_range()) is None,
            r matches Some(v) ==> holds_in_range(v@, field@, range.view_range()),
            r is None <==> forall|j: int| 0 <= j < entry_of(old(self)@, type_id).records.len() ==> !holds_in_range(#[trigger] entry_of(old(self)@, type_id).records[j].1, field@, range.view_range()),
    {
        proof {
            use_type_invariant(&*self);
        }
        let (e, had) = self.take_entry(&type_id);
        let r = e.find_by_range(field, range);
        self.put_entry(type_id, e);
        assert(self@ =~= old(self)@);
        r
    }

    /// Copies of all records of type `type_id` whose `field` lies in `range`.
    fn read_all_records_by_range<K: LeafType>(&mut self, type_id: TypeId, field: &str, range: &KeyRange<K>) -> (r: Vec<JsonValue>)
        requires
            lookup_ok(entry_of(old(self)@, type_id).index, field@, K::kind()),
            range_query_ok(entry_of(old(self)@, type_id).index, field@, range.view_range()),
        ensures
            final(self)@ == old(self)@,
            r@.len() == index_all_by_range(entry_of(old(self)@, type_id).index, field@, range.view_range()).len(),
            r@.len() == collect_values(entry_of(old(self)@, type_id).records, index_all_by_range(entry_of(old(self)@, type_id).index, field@, range.view_range())).len(),
            forall|q: int| 0 <= q < r@.len() ==> (#[trigger] r@[q])@ == collect_values(entry_of(old(self)@, type_id).records, index_all_by_range(entry_of(old(self)@, type_id).index, field@, range.view_range()))[q],
            forall|q: int| 0 <= q < r@.len() ==> holds_in_range((#[trigger] r@[q])@, field@, range.view_range()),
            forall|j: int| 0 <= j < entry_of(old(self)@, type_id).records.len() && holds_in_range(#[trigger] entry_of(old(self)@, type_id).records[j].1, field@, range.view_range())
                ==> exists|q: int| 0 <= q < r@.len() && (#[trigger] r@[q])@ == entry_of(old(self)@, type_id).records[j].1,
    {
        proof {
            use_type_invariant(&*self);
        }
        let (e, had) = self.take_entry(&type_id);
        let r = e.find_all_by_range(field, range);
        self.put_entry(type_id, e);
        assert(self@ =~= old(self)@);
        r
    }

    /// Removes and returns the first record of type `type_id` whose `field` lies in `range`.
    fn try_take_record_by_range<K: LeafType>(&mut self, type_id: TypeId, field: &str, range: &KeyRange<K>) -> (r: Option<JsonValue>)
        requires
            lookup_ok(entry_of(old(self)@, type_id).index, field@, K::kind()),
            range_query_ok(entry_of(old(self)@, type_id).index, field@, range.view_range()),
        ensures
            space_wf(final(self)@),
            final(self)@ == with_entry(old(self)@, type_id, match index_first_by_range(entry_of(old(self)@, type_id).index, field@, range.view_range()) {
                Some(x) => entry_remove_record(entry_of(old(self)@, type_id), x),
                None => entry_of(old(self)@, type_id),
            }),
            r matches Some(v) ==> entry_first_by_range(entry_of(old(self)@, type_id), field@, range.view_range()) == Some(v@),
            r is None ==> entry_first_by_range(entry_of(old(self)@, type_id), field@, range.view_range()) is None,
            r matches Some(v) ==> holds_in_range(v@, field@, range.view_range()),
            r is None <==> forall|j: int| 0 <= j < entry_of(old(self)@, type_id).records.len() ==> !holds_in_range(#[trigger] entry_of(old(self)@, type_id).records[j].1, field@, range.view_range()),
    {
        proof {
            use_type_invariant(&*self);
        }
        let (mut e, had) = self.take_entry(&type_id);
        let r = e.take_by_range(field, range);
        self.put_entry(type_id, e);
        proof {
            if !had {
                assert(index_first_by_range(entry_of(old(self)@, type_id).index, field@, range.view_range()) is None);
            }
        }
        r
    }

    /// Removes and returns all records of type `type_id` whose `field` lies in `range`.
    fn take_all_records_by_range<K: LeafType>(&mut self, type_id: TypeId, field: &str, range: &KeyRange<K>) -> (r: Vec<JsonValue>)
        requires
            lookup_ok(entry_of(old(self)@, type_id).index, field@, K::kind()),
            range_query_ok(entry_of(old(self)@, type_id).index, field@, range.view_range()),
        ensures
            space_wf(final(self)@),
            final(self)@ == with_entry(old(self)@, type_id, entry_remove_records(entry_of(old(self)@, type_id), index_all_by_range(entry_of(old(self)@, type_id).index, field@, range.view_range()))),
            r@.len() == index_all_by_range(entry_of(old(self)@, type_id).index, field@, range.view_range()).len(),
            r@.len() == collect_values(entry_of(old(self)@, type_id).records, index_all_by_range(entry_of(old(self)@, type_id).index, field@, range.view_range())).len(),
            forall|q: int| 0 <= q < r@.len() ==> (#[trigger] r@[q])@ == collect_values(entry_of(old(self)@, type_id).records, index_all_by_range(entry_of(old(self)@, type_id).index, field@, range.view_range()))[q],
            forall|q: int| 0 <= q < r@.len() ==> holds_in_range((#[trigger] r@[q])@, field@, range.view_range()),
            forall|j: int| 0 <= j < entry_of(final(self)@, type_id).records.len() ==> !holds_in_range(#[trigger] entry_of(final(self)@, type_id).records[j].1, field@, range.view_range()),
            forall|j: int| 0 <= j < entry_of(old(self)@, type_id).records.len() && !holds_in_range(#[trigger] entry_of(old(self)@, type_id).records[j].1, field@, range.view_range())
                ==> entry_of(final(self)@, type_id).records.contains(entry_of(old(self)@, type_id).records[j]),
    {
        proof {
            use_type_invariant(&*self);
        }
        let (mut e, had) = self.take_entry(&type_id);
        let ghost ev = e@;
        let r = e.take_all_by_range(field, range);
        let ghost ev2 = e@;
        self.put_entry(type_id, e);
        proof {
            if !had {
                assert(index_all_by_range(entry_of(old(self)@, type_id).index, field@, range.view_range()) =~= Seq::<u64>::empty());
                assert(entry_remove_records(ev, Seq::<u64>::empty()) == ev);
            }
            if ev2 == empty_entry() && !had {
                assert(entry_of(self@, type_id) == ev2);
            }
        }
        r
    }
}

/// A stored record that cannot be rebuilt into nested objects: one of its
/// keys passes through a value that is not an object.
#[derive(Debug)]
pub struct InvalidRecord;

/// What a read that finds record `rec` gives: nothing when there is none,
/// else the record with its nesting rebuilt, or `InvalidRecord` when that
/// cannot be done.
pub open spec fn rebuilt_one(rec: Option<JsonView>) -> Result<Option<JsonView>, InvalidRecord> {
    match rec {
        None => Ok(None),
        Some(v) => match deflatten_spec(v) {
            Some(w) => Ok(Some(w)),
            None => Err(InvalidRecord),
        },
    }
}

/// What a read that finds records `recs` gives: each with its nesting
/// rebuilt, or `InvalidRecord` when one of them cannot be rebuilt.
pub open spec fn rebuilt_all(recs: Seq<JsonView>) -> Result<Seq<JsonView>, InvalidRecord> {
    if forall|j: int| 0 <= j < recs.len() ==> (#[trigger] deflatten_spec(recs[j])) is Some {
        Ok(recs.map_values(|v: JsonView| deflatten_spec(v).unwrap()))
    } else {
        Err(InvalidRecord)
    }
}

/// The model of the result of a read of one record.
pub open spec fn view_one(r: Result<Option<JsonValue>, InvalidRecord>) -> Result<Option<JsonView>, InvalidRecord> {
    match r {
        Ok(Some(v)) => Ok(Some(v@)),
        Ok(None) => Ok(None),
        Err(e) => Err(e),
    }
}

/// The model of the result of a read of several records.
pub open spec fn view_all(r: Result<Vec<JsonValue>, InvalidRecord>) -> Result<Seq<JsonView>, InvalidRecord> {
    match r {
        Ok(v) => Ok(v@.map_values(|x: JsonValue| x@)),
        Err(e) => Err(e),
    }
}

/// The first record of an entry, if any.
pub open spec fn first_record(e: EntryView) -> Option<JsonView> {
    if e.records.len() == 0 {
        None
    } else {
        Some(e.records[0].1)
    }
}

/// The last record of an entry, if any.
pub open spec fn last_record(e: EntryView) -> Option<JsonView> {
    if e.records.len() == 0 {
        None
    } else {
        Some(e.records.last().1)
    }
}

/// Record `rec`, if any, with its nesting rebuilt.
fn rebuild_one(rec: Option<JsonValue>) -> (r: Result<Option<JsonValue>, InvalidRecord>)
    ensures
        view_one(r) == rebuilt_one(match rec {
            Some(v) => Some(v@),
            None => None,
        }),
{
    match rec {
        None => Ok(None),
        Some(v) => match try_deflatten(v) {
            Some(w) => Ok(Some(w)),
            None => Err(InvalidRecord),
        },
    }
}

/// Records `recs`, each with its nesting rebuilt.
fn rebuild_all(recs: Vec<JsonValue>) -> (r: Result<Vec<JsonValue>, InvalidRecord>)
    ensures
        view_all(r) == rebuilt_all(recs@.map_values(|x: JsonValue| x@)),
{
    let ghost s = recs@.map_values(|x: JsonValue| x@);
    let mut out: Vec<JsonValue> = Vec::new();
    let mut i: usize = 0;
    while i < recs.len()
        invariant
            i <= recs@.len(),
            s == recs@.map_values(|x: JsonValue| x@),
            out@.len() == i,
            forall|j: int| 0 <= j < i ==> (#[trigger] deflatten_spec(s[j])) is Some,
            forall|j: int| 0 <= j < i ==> Some((#[trigger] out@[j])@) == deflatten_spec(s[j]),
        decreases recs@.len() - i,
    {
        match try_deflatten(recs[i].copy()) {
            Some(w) => out.push(w),
            None => {
                proof {
                    assert(deflatten_spec(s[i as int]) is None);
                }
                return Err(InvalidRecord);
            },
        }
        i = i + 1;
    }
    proof {
        assert(out@.map_values(|x: JsonValue| x@) =~= s.map_values(|v: JsonView| deflatten_spec(v).unwrap()));
    }
    Ok(out)
}

impl TreeObjectSpace {
    /// The first record of type `type_id`, if any, with its nesting rebuilt.
    pub fn try_read(&mut self, type_id: TypeId) -> (r: Result<Option<JsonValue>, InvalidRecord>)
        ensures
            final(self)@ == old(self)@,
            view_one(r) == rebuilt_one(first_record(entry_of(old(self)@, type_id))),
    {
        proof {
            use_type_invariant(&*self);
        }
        let rec = self.try_read_record(type_id);
        rebuild_one(rec)
    }

    /// All records of type `type_id`, in order, with their nesting rebuilt.
    pub fn read_all(&mut self, type_id: TypeId) -> (r: Result<Vec<JsonValue>, InvalidRecord>)
        ensures
            final(self)@ == old(self)@,
            view_all(r) == rebuilt_all(entry_of(old(self)@, type_id).records.map_values(|p: (u64, JsonView)| p.1)),
    {
        proof {
            use_type_invariant(&*self);
        }
        let recs = self.read_all_records(type_id);
        proof {
            assert(recs@.map_values(|x: JsonValue| x@) =~= entry_of(old(self)@, type_id).records.map_values(|p: (u64, JsonView)| p.1));
        }
        rebuild_all(recs)
    }

    /// Removes the last record of type `type_id`, if any, and returns it with its
    /// nesting rebuilt.
    pub fn try_take(&mut self, type_id: TypeId) -> (r: Result<Option<JsonValue>, InvalidRecord>)
        ensures
            space_wf(final(self)@),
            entry_of(old(self)@, type_id).records.len() == 0 ==> final(self)@ == old(self)@,
            entry_of(old(self)@, type_id).records.len() > 0 ==> final(self)@ == old(self)@.insert(
                type_id,
                entry_remove_record(entry_of(old(self)@, type_id), entry_of(old(self)@, type_id).records.last().0),
            ),
            view_one(r) == rebuilt_one(last_record(entry_of(old(self)@, type_id))),
    {
        proof {
            use_type_invariant(&*self);
        }
        let rec = self.try_take_record(type_id);
        rebuild_one(rec)
    }

    /// Removes all records of type `type_id` and returns them in order, with
    /// their nesting rebuilt.
    pub fn take_all(&mut self, type_id: TypeId) -> (r: Result<Vec<JsonValue>, InvalidRecord>)
        ensures
            space_wf(final(self)@),
            final(self)@ == with_entry(old(self)@, type_id, empty_entry()),
            view_all(r) == rebuilt_all(entry_of(old(self)@, type_id).records.map_values(|p: (u64, JsonView)| p.1)),
    {
        proof {
            use_type_invariant(&*self);
        }
        let recs = self.take_all_records(type_id);
        proof {
            assert(recs@.map_values(|x: JsonValue| x@) =~= entry_of(old(self)@, type_id).records.map_values(|p: (u64, JsonView)| p.1));
        }
        rebuild_all(recs)
    }

    /// The first record of type `type_id` whose `field` holds `key`, with its
    /// nesting rebuilt.
    pub fn try_read_by_value<K: LeafType>(&mut self, type_id: TypeId, field: &str, key: &K) -> (r: Result<Option<JsonValue>, InvalidRecord>)
        requires
            lookup_ok(entry_of(old(self)@, type_id).index, field@, K::kind()),
        ensures
            final(self)@ == old(self)@,
            view_one(r) == rebuilt_one(entry_first_by_value(entry_of(old(self)@, type_id), field@, key.leaf())),
    {
        proof {
            use_type_invariant(&*self);
        }
        let rec = self.try_read_record_by_value(type_id, field, key);
        rebuild_one(rec)
    }

    /// The records of type `type_id` whose `field` holds `key`, with their
    /// nesting rebuilt.
    pub fn read_all_by_value<K: LeafType>(&mut self, type_id: TypeId, field: &str, key: &K) -> (r: Result<Vec<JsonValue>, InvalidRecord>)
        requires
            lookup_ok(entry_of(old(self)@, type_id).index, field@, K::kind()),
        ensures
            final(self)@ == old(self)@,
            view_all(r) == rebuilt_all(collect_values(entry_of(old(self)@, type_id).records, index_all_by_value(entry_of(old(self)@, type_id).index, field@, key.leaf()))),
    {
        proof {
            use_type_invariant(&*self);
        }
        let recs = self.read_all_records_by_value(type_id, field, key);
        proof {
            assert(recs@.map_values(|x: JsonValue| x@) =~= collect_values(entry_of(old(self)@, type_id).records, index_all_by_value(entry_of(old(self)@, type_id).index, field@, key.leaf())));
        }
        rebuild_all(recs)
    }

    /// Removes the first record of type `type_id` whose `field` holds `key` and
    /// returns it with its nesting rebuilt.
    pub fn try_take_by_value<K: LeafType>(&mut self, type_id: TypeId, field: &str, key: &K) -> (r: Result<Option<JsonValue>, InvalidRecord>)
        requires
            lookup_ok(entry_of(old(self)@, type_id).index, field@, K::kind()),
        ensures
            space_wf(final(self)@),
            final(self)@ == with_entry(old(self)@, type_id, match index_first_by_value(entry_of(old(self)@, type_id).index, field@, key.leaf()) {
                Some(x) => entry_remove_record(entry_of(old(self)@, type_id), x),
                None => entry_of(old(self)@, type_id),
            }),
            view_one(r) == rebuilt_one(entry_first_by_value(entry_of(old(self)@, type_id), field@, key.leaf())),
    {
        proof {
            use_type_invariant(&*self);
        }
        let rec = self.try_take_record_by_value(type_id, field, key);
        rebuild_one(rec)
    }

    /// Removes the records of type `type_id` whose `field` holds `key` and
    /// returns them with their nesting rebuilt.
    pub fn take_all_by_value<K: LeafType>(&mut self, type_id: TypeId, field: &str, key: &K) -> (r: Result<Vec<JsonValue>, InvalidRecord>)
        requires
            lookup_ok(entry_of(old(self)@, type_id).index, field@, K::kind()),
        ensures
            space_wf(final(self)@),
            final(self)@ == with_entry(old(self)@, type_id, entry_remove_records(entry_of(old(self)@, type_id), index_all_by_value(entry_of(old(self)@, type_id).index, field@, key.leaf()))),
            view_all(r) == rebuilt_all(collect_values(entry_of(old(self)@, type_id).records, index_all_by_value(entry_of(old(self)@, type_id).index, field@, key.leaf()))),
    {
        proof {
            use_type_invariant(&*self);
        }
        let recs = self.take_all_records_by_value(type_id, field, key);
        proof {
            assert(recs@.map_values(|x: JsonValue| x@) =~= collect_values(entry_of(old(self)@, type_id).records, index_all_by_value(entry_of(old(self)@, type_id).index, field@, key.leaf())));
        }
        rebuild_all(recs)
    }

    /// The first record of type `type_id` whose `field` lies in `range`, with
    /// its nesting rebuilt.
    pub fn try_read_by_range<K: LeafType>(&mut self, type_id: TypeId, field: &str, range: &KeyRange<K>) -> (r: Result<Option<JsonValue>, InvalidRecord>)
        requires
            lookup_ok(entry_of(old(self)@, type_id).index, field@, K::kind()),
            range_query_ok(entry_of(old(self)@, type_id).index, field@, range.view_range()),
        ensures
            final(self)@ == old(self)@,
            view_one(r) == rebuilt_one(entry_first_by_range(entry_of(old(self)@, type_id), field@, range.view_range())),
    {
        proof {
            use_type_invariant(&*self);
        }
        let rec = self.try_read_record_by_range(type_id, field, range);
        rebuild_one(rec)
    }

    /// The records of type `type_id` whose `field` lies in `range`, with their
    /// nesting rebuilt.
    pub fn read_all_by_range<K: LeafType>(&mut self, type_id: TypeId, field: &str, range: &KeyRange<K>) -> (r: Result<Vec<JsonValue>, InvalidRecord>)
        requires
            lookup_ok(entry_of(old(self)@, type_id).index, field@, K::kind()),
            range_query_ok(entry_of(old(self)@, type_id).index, field@, range.view_range()),
        ensures
            final(self)@ == old(self)@,
            view_all(r) == rebuilt_all(collect_values(entry_of(old(self)@, type_id).records, index_all_by_range(entry_of(old(self)@, type_id).index, field@, range.view_range()))),
    {
        proof {
            use_type_invariant(&*self);
        }
        let recs = self.read_all_records_by_range(type_id, field, range);
        proof {
            assert(recs@.map_values(|x: JsonValue| x@) =~= collect_values(entry_of(old(self)@, type_id).records, index_all_by_range(entry_of(old(self)@, type_id).index, field@, range.view_range())));
        }
        rebuild_all(recs)
    }

    /// Removes the first record of type `type_id` whose `field` lies in `range`
    /// and returns it with its nesting rebuilt.
    pub fn try_take_by_range<K: LeafType>(&mut self, type_id: TypeId, field: &str, range: &KeyRange<K>) -> (r: Result<Option<JsonValue>, InvalidRecord>)
        requires
            lookup_ok(entry_of(old(self)@, type_id).index, field@, K::kind()),
            range_query_ok(entry_of(old(self)@, type_id).index, field@, range.view_range()),
        ensures
            space_wf(final(self)@),
            final(self)@ == with_entry(old(self)@, type_id, match index_first_by_range(entry_of(old(self)@, type_id).index, field@, range.view_range()) {
                Some(x) => entry_remove_record(entry_of(old(self)@, type_id), x),
                None => entry_of(old(self)@, type_id),
            }),
            view_one(r) == rebuilt_one(entry_first_by_range(entry_of(old(self)@, type_id), field@, range.view_range())),
    {
        proof {
            use_type_invariant(&*self);
        }
        let rec = self.try_take_record_by_range(type_id, field, range);
        rebuild_one(rec)
    }

    /// Removes the records of type `type_id` whose `field` lies in `range` and
    /// returns them with their nesting rebuilt.
    pub fn take_all_by_range<K: LeafType>(&mut self, type_id: TypeId, field: &str, range: &KeyRange<K>) -> (r: Result<Vec<JsonValue>, InvalidRecord>)
        requires
            lookup_ok(entry_of(old(self)@, type_id).index, field@, K::kind()),
            range_query_ok(entry_of(old(self)@, type_id).index, field@, range.view_range()),
        ensures
            space_wf(final(self)@),
            final(self)@ == with_entry(old(self)@, type_id, entry_remove_records(entry_of(old(self)@, type_id), index_all_by_range(entry_of(old(self)@, type_id).index, field@, range.view_range()))),
            view_all(r) == rebuilt_all(collect_values(entry_of(old(self)@, type_id).records, index_all_by_range(entry_of(old(self)@, type_id).index, field@, range.view_range()))),
    {
        proof {
            use_type_invariant(&*self);
        }
        let recs = self.take_all_records_by_range(type_id, field, range);
        proof {
            assert(recs@.map_values(|x: JsonValue| x@) =~= collect_values(entry_of(old(self)@, type_id).records, index_all_by_range(entry_of(old(self)@, type_id).index, field@, range.view_range())));
        }
        rebuild_all(recs)
    }
}

} // verus!
