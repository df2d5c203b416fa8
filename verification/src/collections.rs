//! The insertion-ordered collections of the `indexmap` crate, as the store
//! uses them: a set of record numbers, and a map from record number to the
//! stored document.
//!
//! Each is modelled by the sequence of its items in their current order.
//! Removing an item moves the last item into its place, as `indexmap`'s
//! `swap_remove` does.

use crate::json::JsonValue;
use indexmap::{IndexMap, IndexSet};
use vstd::prelude::*;

verus! {

#[verifier::external_type_specification]
#[verifier::external_body]
#[verifier::reject_recursive_types(T)]
#[verifier::reject_recursive_types(S)]
pub struct ExIndexSet<T, S>(IndexSet<T, S>);

#[verifier::external_type_specification]
#[verifier::external_body]
#[verifier::reject_recursive_types(K)]
#[verifier::reject_recursive_types(V)]
#[verifier::reject_recursive_types(S)]
pub struct ExIndexMap<K, V, S>(IndexMap<K, V, S>);

/// The items of an `IndexSet<u64>`, in the set's order.
pub uninterp spec fn index_set_items(s: IndexSet<u64>) -> Seq<u64>;

/// The (key, value) pairs of an `IndexMap<u64, JsonValue>`, in the map's order.
pub uninterp spec fn index_map_items(m: IndexMap<u64, JsonValue>) -> Seq<(u64, JsonValue)>;

/// The keys of a sequence of pairs, in order.
pub open spec fn pair_keys<V>(s: Seq<(u64, V)>) -> Seq<u64> {
    s.map_values(|p: (u64, V)| p.0)
}

/// Calls `IndexSet::new`: the new set is empty.
#[verifier::external_body]
pub(crate) fn index_set_new() -> (r: IndexSet<u64>)
    ensures
        index_set_items(r) == Seq::<u64>::empty(),
{
    IndexSet::new()
}

/// Calls `IndexSet::insert`: a value not yet present is added last and
/// `true` is returned; a present value leaves the set unchanged and `false`
/// is returned.
#[verifier::external_body]
pub(crate) fn index_set_insert(s: &mut IndexSet<u64>, v: u64) -> (r: bool)
    ensures
        r == !index_set_items(*old(s)).contains(v),
        r ==> index_set_items(*final(s)) == index_set_items(*old(s)).push(v),
        !r ==> index_set_items(*final(s)) == index_set_items(*old(s)),
{
    s.insert(v)
}

/// Calls `IndexSet::remove`, which is `swap_remove`: a present value is
/// removed by moving the last item into its place, and `true` is returned;
/// otherwise the set is unchanged and `false` is returned.
#[verifier::external_body]
pub(crate) fn index_set_remove(s: &mut IndexSet<u64>, v: &u64) -> (r: bool)
    ensures
        r == index_set_items(*old(s)).contains(*v),
        !r ==> index_set_items(*final(s)) == index_set_items(*old(s)),
        r ==> exists|p: int|
            0 <= p < index_set_items(*old(s)).len() && index_set_items(*old(s))[p] == *v
                && index_set_items(*final(s)) == index_set_items(*old(s)).update(
                p,
                index_set_items(*old(s)).last(),
            ).drop_last(),
{
    #[allow(deprecated)]
    s.remove(v)
}

/// Calls `IndexSet::get_index`: the item at position `i`, if there is one.
#[verifier::external_body]
pub(crate) fn index_set_get(s: &IndexSet<u64>, i: usize) -> (r: Option<u64>)
    ensures
        i < index_set_items(*s).len() ==> r == Some(index_set_items(*s)[i as int]),
        i >= index_set_items(*s).len() ==> r is None,
{
    s.get_index(i).copied()
}

/// Calls `IndexSet::len`: the number of items.
#[verifier::external_body]
pub(crate) fn index_set_len(s: &IndexSet<u64>) -> (r: usize)
    ensures
        r == index_set_items(*s).len(),
{
    s.len()
}

/// Calls `IndexMap::new`: the new map is empty.
#[verifier::external_body]
pub(crate) fn index_map_new() -> (r: IndexMap<u64, JsonValue>)
    ensures
        index_map_items(r) == Seq::<(u64, JsonValue)>::empty(),
{
    IndexMap::new()
}

/// Calls `IndexMap::entry(k).or_insert(v)`: a key not yet present is added
/// last with `v`; a present key leaves the map unchanged.
#[verifier::external_body]
pub(crate) fn index_map_or_insert(m: &mut IndexMap<u64, JsonValue>, k: u64, v: JsonValue)
    ensures
        pair_keys(index_map_items(*old(m))).contains(k) ==> index_map_items(*final(m))
            == index_map_items(*old(m)),
        !pair_keys(index_map_items(*old(m))).contains(k) ==> index_map_items(*final(m))
            == index_map_items(*old(m)).push((k, v)),
{
    m.entry(k).or_insert(v);
}

/// Calls `IndexMap::get`: the value stored under `k`, if any.
#[verifier::external_body]
pub(crate) fn index_map_get<'a>(m: &'a IndexMap<u64, JsonValue>, k: &u64) -> (r: Option<&'a JsonValue>)
    ensures
        r is None <==> !pair_keys(index_map_items(*m)).contains(*k),
        r matches Some(v) ==> exists|p: int|
            0 <= p < index_map_items(*m).len() && index_map_items(*m)[p] == (*k, *v),
{
    m.get(k)
}

/// Calls `IndexMap::remove`, which is `swap_remove`: the pair under `k` is
/// removed by moving the last pair into its place, and its value returned.
#[verifier::external_body]
pub(crate) fn index_map_remove(m: &mut IndexMap<u64, JsonValue>, k: &u64) -> (r: Option<JsonValue>)
    ensures
        r is None <==> !pair_keys(index_map_items(*old(m))).contains(*k),
        r is None ==> index_map_items(*final(m)) == index_map_items(*old(m)),
        r matches Some(v) ==> exists|p: int|
            0 <= p < index_map_items(*old(m)).len() && index_map_items(*old(m))[p] == (*k, v)
                && index_map_items(*final(m)) == index_map_items(*old(m)).update(
                p,
                index_map_items(*old(m)).last(),
            ).drop_last(),
{
    #[allow(deprecated)]
    m.remove(k)
}

/// Calls `IndexMap::pop`: removes and returns the last pair.
#[verifier::external_body]
pub(crate) fn index_map_pop(m: &mut IndexMap<u64, JsonValue>) -> (r: Option<(u64, JsonValue)>)
    ensures
        index_map_items(*old(m)).len() == 0 ==> r is None && index_map_items(*final(m))
            == index_map_items(*old(m)),
        index_map_items(*old(m)).len() > 0 ==> r == Some(index_map_items(*old(m)).last())
            && index_map_items(*final(m)) == index_map_items(*old(m)).drop_last(),
{
    m.pop()
}

/// Calls `IndexMap::get_index`: the value at position `i`, if there is one.
#[verifier::external_body]
pub(crate) fn index_map_get_index<'a>(m: &'a IndexMap<u64, JsonValue>, i: usize) -> (r: Option<
    &'a JsonValue,
>)
    ensures
        i < index_map_items(*m).len() ==> r == Some(&index_map_items(*m)[i as int].1),
        i >= index_map_items(*m).len() ==> r is None,
{
    m.get_index(i).map(|(_, v)| v)
}

/// Calls `IndexMap::len`: the number of pairs.
#[verifier::external_body]
pub(crate) fn index_map_len(m: &IndexMap<u64, JsonValue>) -> (r: usize)
    ensures
        r == index_map_items(*m).len(),
{
    m.len()
}

} // verus!
