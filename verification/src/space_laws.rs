//! Laws of the object space that span several operations: what a read or a
//! take gives back of a write, and how the types are kept apart.

use crate::entry::{
    empty_entry, entry_remove_record, entry_wf, lemma_record_pos, record_pos, swap_remove_at,
    EntryView,
};
use crate::flat::{deflatten_spec, flatten_spec};
use crate::flat_laws::{law_deflatten_flatten, storable};
use crate::index_laws::{holds_key, record_ids};
use crate::indexer::json_leaf;
use crate::object_space::{
    entry_after_write, entry_of, first_record, last_record, rebuilt_all, rebuilt_one, space_wf, with_entry,
    write_ok, InvalidRecord,
};
use crate::ordered::LeafKey;
use crate::json::JsonView;
use std::any::TypeId;
use vstd::prelude::*;

verus! {

/// A write appends one record, numbered after every record the entry holds,
/// that holds the flattened document.
pub proof fn law_write_appends(e: EntryView, v: JsonView)
    requires
        entry_wf(e),
        e.counter < u64::MAX,
    ensures
        entry_after_write(e, v).records == e.records.push(((e.counter + 1) as u64, flatten_spec(v))),
        forall|j: int| 0 <= j < e.records.len() ==> (#[trigger] e.records[j]).0 != (e.counter + 1) as u64,
{
}

/// Reading a type that held nothing after one write gives the written
/// document back: `try_read` answers it, rebuilt, when it is storable.
pub proof fn law_read_after_write(e: EntryView, v: JsonView)
    requires
        entry_wf(e),
        e.records.len() == 0,
    ensures
        entry_after_write(e, v).records.len() == 1,
        entry_after_write(e, v).records[0].1 == flatten_spec(v),
        storable(v) ==> deflatten_spec(entry_after_write(e, v).records[0].1) == Some(v),
        storable(v) ==> rebuilt_one(first_record(entry_after_write(e, v))) == Ok::<Option<JsonView>, InvalidRecord>(Some(v)),
{
    if storable(v) {
        law_deflatten_flatten(v);
    }
}

/// Taking right after a write gives the written document back (`try_take`
/// answers it, rebuilt, when it is storable) and leaves the records as they
/// were before the write.
pub proof fn law_take_after_write(e: EntryView, v: JsonView)
    requires
        entry_wf(e),
        e.counter < u64::MAX,
    ensures
        entry_after_write(e, v).records.last().1 == flatten_spec(v),
        storable(v) ==> deflatten_spec(entry_after_write(e, v).records.last().1) == Some(v),
        storable(v) ==> rebuilt_one(last_record(entry_after_write(e, v))) == Ok::<Option<JsonView>, InvalidRecord>(Some(v)),
        entry_remove_record(entry_after_write(e, v), entry_after_write(e, v).records.last().0).records
            == e.records,
{
    let e2 = entry_after_write(e, v);
    let x = ((e.counter + 1) as u64);
    let n = e.records.len();
    assert(record_ids(e2.records).no_duplicates()) by {
        let ids = record_ids(e2.records);
        assert forall|a: int, b: int| 0 <= a < ids.len() && 0 <= b < ids.len() && a != b implies ids[a] != ids[b] by {
            if a < n && b < n {
                assert(ids[a] == record_ids(e.records)[a]);
                assert(ids[b] == record_ids(e.records)[b]);
            } else if a < n {
                assert(e2.records[a] == e.records[a]);
            } else {
                assert(e2.records[b] == e.records[b]);
            }
        }
    }
    lemma_record_pos(e2.records, x);
    assert(e2.records[n as int].0 == x);
    assert(record_pos(e2.records, x) == Some(n as int));
    assert(swap_remove_at(e2.records, n as int) =~= e.records);
    if storable(v) {
        law_deflatten_flatten(v);
    }
}

/// A document written with key `k` at `field` is among the records that
/// hold `k` at `field`, so a lookup of `k` there finds a record.
pub proof fn law_written_is_found(e: EntryView, v: JsonView, field: Seq<char>, k: LeafKey)
    requires
        holds_key(flatten_spec(v), field, k),
    ensures
        exists|j: int|
            0 <= j < entry_after_write(e, v).records.len() && holds_key(
                #[trigger] entry_after_write(e, v).records[j].1,
                field,
                k,
            ),
{
    let r = entry_after_write(e, v).records;
    assert(r[r.len() - 1].1 == flatten_spec(v));
}

/// An operation on type `t` leaves the records of every other type as they
/// were.
pub proof fn law_types_apart(m: Map<TypeId, EntryView>, t: TypeId, u: TypeId, e: EntryView)
    requires
        t != u,
    ensures
        entry_of(m.insert(t, e), u) == entry_of(m, u),
        entry_of(with_entry(m, t, e), u) == entry_of(m, u),
{
}

/// After taking all records of a type, the type holds none.
pub proof fn law_take_all_empties(m: Map<TypeId, EntryView>, t: TypeId)
    ensures
        entry_of(with_entry(m, t, empty_entry()), t).records.len() == 0,
{
}

/// The documents `read_all` reads of an entry: its records, in order.
pub open spec fn entry_docs(e: EntryView) -> Seq<JsonView> {
    e.records.map_values(|p: (u64, JsonView)| p.1)
}

/// A write appends the written document after every record of its type,
/// and leaves every other type as it was: when the records read back
/// before, reading them after gives the same documents followed by the
/// written one, when it is storable.
pub proof fn law_write_then_read_all(m: Map<TypeId, EntryView>, t: TypeId, v: JsonView)
    requires
        space_wf(m),
        write_ok(entry_of(m, t), v),
    ensures
        entry_docs(entry_of(m.insert(t, entry_after_write(entry_of(m, t), v)), t)) == entry_docs(entry_of(m, t)).push(
            flatten_spec(v),
        ),
        forall|u: TypeId| u != t ==> #[trigger] entry_of(m.insert(t, entry_after_write(entry_of(m, t), v)), u) == entry_of(m, u),
        storable(v) ==> (rebuilt_all(entry_docs(entry_of(m, t))) matches Ok(l) ==> rebuilt_all(
            entry_docs(entry_of(m.insert(t, entry_after_write(entry_of(m, t), v)), t)),
        ) == Ok::<Seq<JsonView>, InvalidRecord>(l.push(v))),
{
    let e = entry_of(m, t);
    let e2 = entry_after_write(e, v);
    let old_docs = entry_docs(e);
    let new_docs = entry_docs(e2);
    assert(entry_of(m.insert(t, e2), t) == e2);
    assert(new_docs =~= old_docs.push(flatten_spec(v)));
    if storable(v) {
        law_deflatten_flatten(v);
        if let Ok(l) = rebuilt_all(old_docs) {
            assert forall|j: int| 0 <= j < new_docs.len() implies (#[trigger] deflatten_spec(new_docs[j])) is Some by {
                if j < old_docs.len() {
                    assert(new_docs[j] == old_docs[j]);
                }
            }
            assert(new_docs.map_values(|x: JsonView| deflatten_spec(x).unwrap()) =~= l.push(v)) by {
                assert forall|j: int| 0 <= j < new_docs.len() implies new_docs.map_values(|x: JsonView| deflatten_spec(x).unwrap())[j] == l.push(v)[j] by {
                    if j < old_docs.len() {
                        assert(new_docs[j] == old_docs[j]);
                    }
                }
            }
        }
    }
}

/// A value that an index leaf with nothing in it takes: null, an array, or
/// a number, boolean or string with a key (an integer must fit `i64`).
pub open spec fn indexable(v: JsonView) -> bool {
    match v {
        JsonView::Null => true,
        JsonView::Array(_) => true,
        JsonView::Object(_) => false,
        _ => json_leaf(v) is Some,
    }
}

/// Writing to a type that holds nothing yet goes through exactly when every
/// field of the flattened document (or the document itself, when it is not
/// an object) is indexable.
pub proof fn law_first_write_ok(v: JsonView)
    ensures
        write_ok(empty_entry(), v) == (match flatten_spec(v) {
            JsonView::Object(m) => forall|j: int| 0 <= j < m.len() ==> indexable((#[trigger] m[j]).1),
            w => indexable(w),
        }),
{
}

} // verus!
