//! What flattening and rebuilding promise together: a document whose keys
//! hold no dots, whose objects have distinct keys and whose nested objects
//! are not empty comes back unchanged from `deflatten(flatten(..))`.
//!
//! The proof goes through the leaves of a document, each with the sequence of
//! keys that leads to it: flattening lists the leaves with their keys joined
//! by dots, and rebuilding splits each key at the dots and places the leaf
//! back along that path.

use crate::flat::{
    assoc_insert, deflatten_pairs, deflatten_spec, first_pos, flatten_into, flatten_pairs_into,
    flatten_spec, insert_path, join_path, put_first, split_dots, split_state,
};
use crate::indexer::{key_pos, keys_distinct, lemma_key_pos};
use crate::json::JsonView;
use vstd::prelude::*;

verus! {

/// A key without dots.
pub open spec fn dot_free(k: Seq<char>) -> bool {
    forall|i: int| 0 <= i < k.len() ==> k[i] != '.'
}

/// Scanning dot-free characters only extends the open segment.
proof fn lemma_split_free_suffix(s: Seq<char>, k: Seq<char>)
    requires
        dot_free(k),
    ensures
        split_state(s + k) == (split_state(s).0, split_state(s).1 + k),
    decreases k.len(),
{
    if k.len() == 0 {
        assert(s + k =~= s);
        assert(split_state(s).1 + k =~= split_state(s).1);
    } else {
        let k0 = k.drop_last();
        lemma_split_free_suffix(s, k0);
        assert((s + k).drop_last() =~= s + k0);
        assert((s + k).last() == k.last());
        assert(split_state(s).1 + k0 + seq![k.last()] =~= split_state(s).1 + k);
        assert((split_state(s).1 + k0).push(k.last()) =~= split_state(s).1 + k);
    }
}

/// A dot-free key is a single segment.
pub proof fn lemma_split_dot_free(k: Seq<char>)
    requires
        dot_free(k),
    ensures
        split_dots(k) == seq![k],
{
    lemma_split_free_suffix(Seq::empty(), k);
    assert(Seq::<char>::empty() + k =~= k);
    assert(Seq::<char>::empty() + k =~= k);
    assert(split_state(Seq::<char>::empty()).0 =~= Seq::<Seq<char>>::empty());
    assert(seq![k] =~= Seq::<Seq<char>>::empty().push(k));
}

/// Joining a dot-free key with a dot adds one segment.
pub proof fn lemma_split_join(p: Seq<char>, k: Seq<char>)
    requires
        dot_free(k),
    ensures
        split_dots(p + seq!['.'] + k) == split_dots(p).push(k),
{
    let q = p + seq!['.'];
    assert(q.drop_last() =~= p);
    assert(q.last() == '.');
    lemma_split_free_suffix(q, k);
    assert(Seq::<char>::empty() + k =~= k);
}

/// The dotted path reached from `path` by following the keys `segs`.
pub open spec fn join_all(path: Seq<char>, segs: Seq<Seq<char>>) -> Seq<char>
    decreases segs.len(),
{
    if segs.len() == 0 {
        path
    } else {
        join_all(join_path(path, segs[0]), segs.drop_first())
    }
}

/// From a non-empty path, following dot-free keys adds them as segments.
pub proof fn lemma_join_all_split(path: Seq<char>, segs: Seq<Seq<char>>)
    requires
        path.len() > 0,
        forall|i: int| 0 <= i < segs.len() ==> dot_free(#[trigger] segs[i]),
    ensures
        split_dots(join_all(path, segs)) == split_dots(path) + segs,
    decreases segs.len(),
{
    if segs.len() == 0 {
        assert(split_dots(path) + segs =~= split_dots(path));
    } else {
        let next = join_path(path, segs[0]);
        assert(dot_free(segs[0]));
        lemma_split_join(path, segs[0]);
        assert forall|i: int| 0 <= i < segs.drop_first().len() implies dot_free(
            #[trigger] segs.drop_first()[i],
        ) by {
            assert(segs.drop_first()[i] == segs[i + 1]);
        }
        lemma_join_all_split(next, segs.drop_first());
        assert(split_dots(path).push(segs[0]) + segs.drop_first() =~= split_dots(path) + segs);
    }
}

/// The leaves of `q`, each with `k` put in front of its keys.
pub open spec fn prefix_all(k: Seq<char>, q: Seq<(Seq<Seq<char>>, JsonView)>) -> Seq<
    (Seq<Seq<char>>, JsonView),
> {
    q.map_values(|x: (Seq<Seq<char>>, JsonView)| (seq![k] + x.0, x.1))
}

/// The leaves of a document in order, each with the keys that lead to it:
/// a value that is not an object is its own leaf.
pub open spec fn leaves(v: JsonView) -> Seq<(Seq<Seq<char>>, JsonView)>
    decreases v,
{
    match v {
        JsonView::Object(m) => field_leaves(m),
        _ => seq![(Seq::empty(), v)],
    }
}

/// The leaves of the fields `m` in order.
pub open spec fn field_leaves(m: Seq<(Seq<char>, JsonView)>) -> Seq<(Seq<Seq<char>>, JsonView)>
    decreases m,
{
    if m.len() == 0 {
        Seq::empty()
    } else {
        field_leaves(m.drop_last()) + prefix_all(m.last().0, leaves(m.last().1))
    }
}

/// A nested value that flattening keeps apart: an object in it has at least
/// one field, distinct dot-free keys, and fields of the same kind.
pub open spec fn nested_ok(v: JsonView) -> bool
    decreases v,
{
    match v {
        JsonView::Object(m) => m.len() > 0 && fields_ok(m),
        _ => true,
    }
}

/// Fields with distinct dot-free keys whose values are `nested_ok`.
pub open spec fn fields_ok(m: Seq<(Seq<char>, JsonView)>) -> bool
    decreases m,
{
    keys_distinct(m) && (m.len() > 0 ==> fields_ok(m.drop_last()) && dot_free(m.last().0)
        && nested_ok(m.last().1))
}

/// Fields whose values are objects have non-empty keys.
pub open spec fn object_keys_named(m: Seq<(Seq<char>, JsonView)>) -> bool {
    forall|i: int| 0 <= i < m.len() && (#[trigger] m[i]).1 is Object ==> m[i].0.len() > 0
}

/// A document that comes back unchanged from flattening and rebuilding: a
/// value that is not an object, or an object whose fields are `fields_ok`
/// and whose fields holding objects have non-empty keys. Keys are distinct
/// at every depth, as in any JSON object read into a map; a document with a
/// key twice does not come back unchanged.
pub open spec fn storable(v: JsonView) -> bool {
    match v {
        JsonView::Object(m) => fields_ok(m) && object_keys_named(m),
        _ => true,
    }
}

/// Every segment of `segs` is dot-free.
pub open spec fn segs_dot_free(segs: Seq<Seq<char>>) -> bool {
    forall|i: int| 0 <= i < segs.len() ==> dot_free(#[trigger] segs[i])
}

/// The key sequences of `q` are pairwise distinct.
pub open spec fn paths_distinct(q: Seq<(Seq<Seq<char>>, JsonView)>) -> bool {
    forall|a: int, b: int| 0 <= a < b < q.len() ==> (#[trigger] q[a]).0 != (#[trigger] q[b]).0
}

proof fn lemma_prefix_all(k: Seq<char>, q: Seq<(Seq<Seq<char>>, JsonView)>)
    ensures
        prefix_all(k, q).len() == q.len(),
        forall|j: int| 0 <= j < q.len() ==> #[trigger] prefix_all(k, q)[j] == (seq![k] + q[j].0, q[j].1),
        paths_distinct(q) ==> paths_distinct(prefix_all(k, q)),
        dot_free(k) && (forall|j: int| 0 <= j < q.len() ==> segs_dot_free(#[trigger] q[j].0))
            ==> forall|j: int| 0 <= j < q.len() ==> segs_dot_free(#[trigger] prefix_all(k, q)[j].0),
{
    let r = prefix_all(k, q);
    if paths_distinct(q) {
        assert forall|a: int, b: int| 0 <= a < b < r.len() implies (#[trigger] r[a]).0 != (#[trigger] r[b]).0 by {
            if r[a].0 == r[b].0 {
                assert(r[a].0.drop_first() =~= q[a].0);
                assert(r[b].0.drop_first() =~= q[b].0);
            }
        }
    }
    if dot_free(k) && (forall|j: int| 0 <= j < q.len() ==> segs_dot_free(#[trigger] q[j].0)) {
        assert forall|j: int| 0 <= j < q.len() implies segs_dot_free(#[trigger] r[j].0) by {
            assert(segs_dot_free(q[j].0));
            assert forall|i: int| 0 <= i < r[j].0.len() implies dot_free(#[trigger] r[j].0[i]) by {
                if i > 0 {
                    assert(r[j].0[i] == q[j].0[i - 1]);
                }
            }
        }
    }
}

/// The leaves of a nested value: at least one, with dot-free distinct key
/// sequences, non-empty when the value is an object.
pub proof fn lemma_leaves_props(v: JsonView)
    requires
        nested_ok(v),
    ensures
        leaves(v).len() >= 1,
        paths_distinct(leaves(v)),
        forall|j: int| 0 <= j < leaves(v).len() ==> segs_dot_free(#[trigger] leaves(v)[j].0),
        v is Object ==> forall|j: int| 0 <= j < leaves(v).len() ==> (#[trigger] leaves(v)[j]).0.len() >= 1,
    decreases v,
{
    match v {
        JsonView::Object(m) => {
            lemma_field_leaves_props(m);
        },
        _ => {
            let l = leaves(v);
            assert(l.len() == 1);
            assert(segs_dot_free(l[0].0));
        },
    }
}

/// The leaves of fields: each key sequence starts with the key of one of the
/// fields; all are dot-free and distinct.
pub proof fn lemma_field_leaves_props(m: Seq<(Seq<char>, JsonView)>)
    requires
        fields_ok(m),
    ensures
        m.len() > 0 ==> field_leaves(m).len() >= 1,
        paths_distinct(field_leaves(m)),
        forall|j: int| 0 <= j < field_leaves(m).len() ==> segs_dot_free(#[trigger] field_leaves(m)[j].0),
        forall|j: int|
            0 <= j < field_leaves(m).len() ==> (#[trigger] field_leaves(m)[j]).0.len() >= 1 && exists|q: int|
                0 <= q < m.len() && (#[trigger] m[q]).0 == field_leaves(m)[j].0[0],
    decreases m,
{
    if m.len() > 0 {
        let m0 = m.drop_last();
        let k = m.last().0;
        let v = m.last().1;
        assert(keys_distinct(m0)) by {
            assert forall|a: int, b: int| 0 <= a < b < m0.len() implies (#[trigger] m0[a]).0 != (#[trigger] m0[b]).0 by {
                assert(m0[a] == m[a] && m0[b] == m[b]);
            }
        }
        lemma_field_leaves_props(m0);
        lemma_leaves_props(v);
        lemma_prefix_all(k, leaves(v));
        let a0 = field_leaves(m0);
        let b0 = prefix_all(k, leaves(v));
        let r = field_leaves(m);
        assert(r == a0 + b0);
        assert forall|j: int| 0 <= j < r.len() implies (#[trigger] r[j]).0.len() >= 1 && exists|q: int|
            0 <= q < m.len() && (#[trigger] m[q]).0 == r[j].0[0] by {
            if j < a0.len() {
                assert(r[j] == a0[j]);
                let q = choose|q: int| 0 <= q < m0.len() && (#[trigger] m0[q]).0 == a0[j].0[0];
                assert(m[q] == m0[q]);
            } else {
                assert(r[j] == b0[j - a0.len()]);
                assert(r[j].0[0] == k);
                assert(m[m.len() - 1] == m.last());
            }
        }
        assert forall|j: int| 0 <= j < r.len() implies segs_dot_free(#[trigger] r[j].0) by {
            if j < a0.len() {
                assert(r[j] == a0[j]);
            } else {
                assert(r[j] == b0[j - a0.len()]);
            }
        }
        assert forall|a: int, b: int| 0 <= a < b < r.len() implies (#[trigger] r[a]).0 != (#[trigger] r[b]).0 by {
            if b < a0.len() {
                assert(r[a] == a0[a] && r[b] == a0[b]);
            } else if a >= a0.len() {
                assert(r[a] == b0[a - a0.len()] && r[b] == b0[b - a0.len()]);
            } else {
                assert(r[a] == a0[a] && r[b] == b0[b - a0.len()]);
                assert(r[b].0[0] == k);
                let q = choose|q: int| 0 <= q < m0.len() && (#[trigger] m0[q]).0 == a0[a].0[0];
                assert(m[q] == m0[q]);
                assert(m[m.len() - 1] == m.last());
                assert(m[q].0 != m[m.len() - 1].0);
            }
        }
    }
}

/// The object `acc` after inserting the pairs `l` one after another.
pub open spec fn insert_all(acc: Seq<(Seq<char>, JsonView)>, l: Seq<(Seq<char>, JsonView)>) -> Seq<
    (Seq<char>, JsonView),
>
    decreases l.len(),
{
    if l.len() == 0 {
        acc
    } else {
        assoc_insert(insert_all(acc, l.drop_last()), l.last().0, l.last().1)
    }
}

/// The leaves `q` with their key sequences joined onto `path`.
pub open spec fn joined(path: Seq<char>, q: Seq<(Seq<Seq<char>>, JsonView)>) -> Seq<(Seq<char>, JsonView)> {
    q.map_values(|x: (Seq<Seq<char>>, JsonView)| (join_all(path, x.0), x.1))
}

proof fn lemma_insert_all_concat(
    acc: Seq<(Seq<char>, JsonView)>,
    a: Seq<(Seq<char>, JsonView)>,
    b: Seq<(Seq<char>, JsonView)>,
)
    ensures
        insert_all(acc, a + b) == insert_all(insert_all(acc, a), b),
    decreases b.len(),
{
    if b.len() == 0 {
        assert(a + b =~= a);
    } else {
        assert((a + b).drop_last() =~= a + b.drop_last());
        assert((a + b).last() == b.last());
        lemma_insert_all_concat(acc, a, b.drop_last());
    }
}

/// Inserting pairs whose keys are new appends them.
proof fn lemma_insert_all_fresh(acc: Seq<(Seq<char>, JsonView)>, l: Seq<(Seq<char>, JsonView)>)
    requires
        keys_distinct(acc + l),
    ensures
        insert_all(acc, l) == acc + l,
    decreases l.len(),
{
    if l.len() > 0 {
        let l0 = l.drop_last();
        let full = acc + l;
        let part = acc + l0;
        assert(part =~= full.drop_last());
        assert(keys_distinct(part)) by {
            assert forall|a: int, b: int| 0 <= a < b < part.len() implies (#[trigger] part[a]).0 != (#[trigger] part[b]).0 by {
                assert(part[a] == full[a] && part[b] == full[b]);
            }
        }
        lemma_insert_all_fresh(acc, l0);
        lemma_key_pos(part, l.last().0);
        assert(full[full.len() - 1] == l.last());
        assert forall|q: int| 0 <= q < part.len() implies (#[trigger] part[q]).0 != l.last().0 by {
            assert(part[q] == full[q]);
        }
        assert(key_pos(part, l.last().0) is None);
        assert(part.push((l.last().0, l.last().1)) =~= full);
    }
}

proof fn lemma_joined_prefix(path: Seq<char>, k: Seq<char>, q: Seq<(Seq<Seq<char>>, JsonView)>)
    ensures
        joined(path, prefix_all(k, q)) == joined(join_path(path, k), q),
{
    let l = joined(path, prefix_all(k, q));
    let r = joined(join_path(path, k), q);
    assert forall|j: int| 0 <= j < q.len() implies #[trigger] l[j] == r[j] by {
        let segs = seq![k] + q[j].0;
        assert(segs[0] == k);
        assert(segs.drop_first() =~= q[j].0);
    }
    assert(l =~= r);
}

/// Flattening inserts the leaves, with their keys joined by dots, one after
/// another.
pub proof fn lemma_flatten_into_leaves(acc: Seq<(Seq<char>, JsonView)>, path: Seq<char>, v: JsonView)
    ensures
        flatten_into(acc, path, v) == insert_all(acc, joined(path, leaves(v))),
    decreases v,
{
    match v {
        JsonView::Object(m) => {
            lemma_flatten_pairs_leaves(acc, path, m);
            assert(flatten_into(acc, path, v) == flatten_pairs_into(acc, path, m));
            assert(leaves(v) == field_leaves(m));
            assert(flatten_pairs_into(acc, path, m) == insert_all(acc, joined(path, field_leaves(m))));
            assert(joined(path, leaves(v)) == joined(path, field_leaves(m)));
            assert(insert_all(acc, joined(path, leaves(v))) == insert_all(acc, joined(path, field_leaves(m))));
            assert(flatten_into(acc, path, v) == insert_all(acc, joined(path, leaves(v))));
        },
        _ => {
            let l = joined(path, leaves(v));
            assert(l.len() == 1);
            assert(l[0] == (path, v));
            assert(l.drop_last() =~= Seq::<(Seq<char>, JsonView)>::empty());
            assert(insert_all(acc, l.drop_last()) == acc);
            assert(l.last() == (path, v));
            assert(insert_all(acc, l) == assoc_insert(acc, path, v));
            assert(flatten_into(acc, path, v) == assoc_insert(acc, path, v));
        },
    }
}

pub proof fn lemma_flatten_pairs_leaves(acc: Seq<(Seq<char>, JsonView)>, path: Seq<char>, m: Seq<(Seq<char>, JsonView)>)
    ensures
        flatten_pairs_into(acc, path, m) == insert_all(acc, joined(path, field_leaves(m))),
    decreases m,
{
    if m.len() == 0 {
        assert(joined(path, field_leaves(m)) =~= Seq::<(Seq<char>, JsonView)>::empty());
    } else {
        let m0 = m.drop_last();
        let k = m.last().0;
        let v = m.last().1;
        lemma_flatten_pairs_leaves(acc, path, m0);
        lemma_flatten_into_leaves(flatten_pairs_into(acc, path, m0), join_path(path, k), v);
        lemma_joined_prefix(path, k, leaves(v));
        let a = joined(path, field_leaves(m0));
        let b = joined(path, prefix_all(k, leaves(v)));
        assert(joined(path, field_leaves(m)) =~= a + b);
        lemma_insert_all_concat(acc, a, b);
    }
}

/// The object `acc` after placing each leaf of `q` along its keys, or `None`
/// once a path is blocked.
pub open spec fn place_all(acc: Seq<(Seq<char>, JsonView)>, q: Seq<(Seq<Seq<char>>, JsonView)>) -> Option<
    Seq<(Seq<char>, JsonView)>,
>
    decreases q.len(),
{
    if q.len() == 0 {
        Some(acc)
    } else {
        match place_all(acc, q.drop_last()) {
            Some(a) => insert_path(a, q.last().0, q.last().1),
            None => None,
        }
    }
}

proof fn lemma_place_all_concat(
    acc: Seq<(Seq<char>, JsonView)>,
    a: Seq<(Seq<Seq<char>>, JsonView)>,
    b: Seq<(Seq<Seq<char>>, JsonView)>,
)
    ensures
        place_all(acc, a + b) == (match place_all(acc, a) {
            Some(x) => place_all(x, b),
            None => None,
        }),
    decreases b.len(),
{
    if b.len() == 0 {
        assert(a + b =~= a);
    } else {
        assert((a + b).drop_last() =~= a + b.drop_last());
        assert((a + b).last() == b.last());
        lemma_place_all_concat(acc, a, b.drop_last());
    }
}

/// Rebuilding from keys that split into the key sequences of `q` places the
/// leaves of `q`.
proof fn lemma_deflatten_as_place(
    acc: Seq<(Seq<char>, JsonView)>,
    pairs: Seq<(Seq<char>, JsonView)>,
    q: Seq<(Seq<Seq<char>>, JsonView)>,
)
    requires
        pairs.len() == q.len(),
        forall|j: int| 0 <= j < q.len() ==> split_dots(#[trigger] pairs[j].0) == q[j].0 && pairs[j].1 == q[j].1,
    ensures
        deflatten_pairs(acc, pairs) == place_all(acc, q),
    decreases q.len(),
{
    if q.len() > 0 {
        assert forall|j: int| 0 <= j < q.drop_last().len() implies split_dots(#[trigger] pairs.drop_last()[j].0)
            == q.drop_last()[j].0 && pairs.drop_last()[j].1 == q.drop_last()[j].1 by {
            assert(pairs.drop_last()[j] == pairs[j]);
        }
        lemma_deflatten_as_place(acc, pairs.drop_last(), q.drop_last());
        assert(pairs.last() == pairs[pairs.len() - 1]);
    }
}

/// `first_pos` finds the first pair with the key.
proof fn lemma_first_pos(m: Seq<(Seq<char>, JsonView)>, k: Seq<char>)
    ensures
        first_pos(m, k) is None <==> forall|i: int| 0 <= i < m.len() ==> (#[trigger] m[i]).0 != k,
        first_pos(m, k) matches Some(p) ==> 0 <= p < m.len() && m[p].0 == k && forall|i: int|
            0 <= i < p ==> (#[trigger] m[i]).0 != k,
    decreases m.len(),
{
    if m.len() > 0 {
        lemma_first_pos(m.drop_first(), k);
        assert forall|i: int| 0 < i < m.len() implies #[trigger] m[i] == m.drop_first()[i - 1] by {}
        if m[0].0 != k {
            if first_pos(m.drop_first(), k) is None {
                assert forall|i: int| 0 <= i < m.len() implies (#[trigger] m[i]).0 != k by {
                    if i > 0 {
                        assert(m[i] == m.drop_first()[i - 1]);
                    }
                }
            } else {
                let p = first_pos(m.drop_first(), k).unwrap();
                assert(m[p + 1] == m.drop_first()[p]);
                assert forall|i: int| 0 <= i < p + 1 implies (#[trigger] m[i]).0 != k by {
                    if i > 0 {
                        assert(m[i] == m.drop_first()[i - 1]);
                    }
                }
            }
        }
    }
}

/// Placing the leaves of `q`, each under key `k`, into an object without `k`
/// adds one field `k` holding the object those leaves rebuild.
proof fn lemma_place_group(r: Seq<(Seq<char>, JsonView)>, k: Seq<char>, q: Seq<(Seq<Seq<char>>, JsonView)>)
    requires
        first_pos(r, k) is None,
        q.len() >= 1,
        forall|j: int| 0 <= j < q.len() ==> (#[trigger] q[j]).0.len() >= 1,
    ensures
        place_all(r, prefix_all(k, q)) == (match place_all(Seq::empty(), q) {
            Some(c) => Some(r.push((k, JsonView::Object(c)))),
            None => None,
        }),
    decreases q.len(),
{
    lemma_prefix_all(k, q);
    let pq = prefix_all(k, q);
    let last = q.last();
    let segs = seq![k] + last.0;
    assert(pq.last() == (segs, last.1)) by {
        assert(pq.last() == pq[q.len() - 1]);
    }
    assert(segs.len() >= 2) by {
        assert(q[q.len() - 1] == last);
    }
    assert(segs[0] == k);
    assert(segs.drop_first() =~= last.0);
    if q.len() == 1 {
        assert(pq.drop_last() =~= Seq::<(Seq<Seq<char>>, JsonView)>::empty());
        assert(q.drop_last() =~= Seq::<(Seq<Seq<char>>, JsonView)>::empty());
        assert(place_all(r, pq.drop_last()) == Some(r));
        assert(place_all(Seq::empty(), q.drop_last()) == Some(Seq::<(Seq<char>, JsonView)>::empty()));
        assert(place_all(r, pq) == insert_path(r, segs, last.1));
        assert(place_all(Seq::empty(), q) == insert_path(Seq::empty(), last.0, last.1));
        assert(first_pos(r, segs[0]) is None);
    } else {
        let q0 = q.drop_last();
        assert forall|j: int| 0 <= j < q0.len() implies (#[trigger] q0[j]).0.len() >= 1 by {
            assert(q0[j] == q[j]);
        }
        lemma_place_group(r, k, q0);
        assert(pq.drop_last() =~= prefix_all(k, q0));
        assert(place_all(r, pq) == (match place_all(r, prefix_all(k, q0)) {
            Some(a) => insert_path(a, segs, last.1),
            None => None,
        }));
        assert(place_all(Seq::empty(), q) == (match place_all(Seq::empty(), q0) {
            Some(a) => insert_path(a, last.0, last.1),
            None => None,
        }));
        match place_all(Seq::empty(), q0) {
            Some(c1) => {
                let r1 = r.push((k, JsonView::Object(c1)));
                lemma_first_pos(r, k);
                lemma_first_pos(r1, k);
                assert(r1[r.len() as int].0 == k);
                assert(first_pos(r1, k) == Some(r.len() as int)) by {
                    let p = first_pos(r1, k).unwrap();
                    if p < r.len() {
                        assert(r1[p] == r[p]);
                    }
                }
                match insert_path(c1, last.0, last.1) {
                    Some(c2) => {
                        assert(r1.update(r.len() as int, (r1[r.len() as int].0, JsonView::Object(c2)))
                            =~= r.push((k, JsonView::Object(c2))));
                    },
                    None => {},
                }
            },
            None => {},
        }
    }
}

/// Placing the leaves of fields rebuilds the fields.
pub proof fn lemma_rebuild_fields(m: Seq<(Seq<char>, JsonView)>)
    requires
        fields_ok(m),
    ensures
        place_all(Seq::empty(), field_leaves(m)) == Some(m),
    decreases m,
{
    if m.len() == 0 {
        assert(field_leaves(m) =~= Seq::<(Seq<Seq<char>>, JsonView)>::empty());
        assert(m =~= Seq::<(Seq<char>, JsonView)>::empty());
    } else {
        let m0 = m.drop_last();
        let k = m.last().0;
        let v = m.last().1;
        assert(keys_distinct(m0)) by {
            assert forall|a: int, b: int| 0 <= a < b < m0.len() implies (#[trigger] m0[a]).0 != (#[trigger] m0[b]).0 by {
                assert(m0[a] == m[a] && m0[b] == m[b]);
            }
        }
        lemma_rebuild_fields(m0);
        lemma_place_all_concat(Seq::empty(), field_leaves(m0), prefix_all(k, leaves(v)));
        lemma_first_pos(m0, k);
        assert(first_pos(m0, k) is None) by {
            assert forall|i: int| 0 <= i < m0.len() implies (#[trigger] m0[i]).0 != k by {
                assert(m0[i] == m[i]);
                assert(m[m.len() - 1] == m.last());
            }
        }
        assert(m0.push((k, v)) =~= m);
        match v {
            JsonView::Object(c) => {
                assert(decreases_to!(m => m[m.len() - 1]));
                assert(m[m.len() - 1] == m.last());
                assert(nested_ok(v));
                assert(fields_ok(c) && c.len() > 0);
                lemma_rebuild_fields(c);
                lemma_field_leaves_props(c);
                assert(leaves(v) == field_leaves(c));
                lemma_place_group(m0, k, field_leaves(c));
            },
            _ => {
                lemma_prefix_all(k, leaves(v));
                let pq = prefix_all(k, leaves(v));
                assert(pq.len() == 1);
                assert(pq[0] == (seq![k], v)) by {
                    assert(leaves(v)[0] == (Seq::<Seq<char>>::empty(), v));
                    assert(seq![k] + Seq::<Seq<char>>::empty() =~= seq![k]);
                }
                assert(pq.drop_last() =~= Seq::<(Seq<Seq<char>>, JsonView)>::empty());
                assert(place_all(m0, pq.drop_last()) == Some(m0));
                assert(pq.last() == pq[0]);
                assert(seq![k][0] == k);
                assert(place_all(m0, pq) == insert_path(m0, seq![k], v));
                assert(put_first(m0, k, v) == m0.push((k, v)));
            },
        }
    }
}

/// At the top level, each flattened key splits back into the keys that led
/// to its leaf.
proof fn lemma_top_split(m: Seq<(Seq<char>, JsonView)>)
    requires
        fields_ok(m),
        object_keys_named(m),
    ensures
        forall|j: int|
            0 <= j < field_leaves(m).len() ==> split_dots(join_all(Seq::empty(), #[trigger] field_leaves(m)[j].0))
                == field_leaves(m)[j].0,
    decreases m.len(),
{
    if m.len() > 0 {
        let m0 = m.drop_last();
        let k = m.last().0;
        let v = m.last().1;
        assert(m[m.len() - 1] == m.last());
        assert(keys_distinct(m0)) by {
            assert forall|a: int, b: int| 0 <= a < b < m0.len() implies (#[trigger] m0[a]).0 != (#[trigger] m0[b]).0 by {
                assert(m0[a] == m[a] && m0[b] == m[b]);
            }
        }
        assert(object_keys_named(m0)) by {
            assert forall|i: int| 0 <= i < m0.len() && (#[trigger] m0[i]).1 is Object implies m0[i].0.len() > 0 by {
                assert(m0[i] == m[i]);
            }
        }
        lemma_top_split(m0);
        lemma_leaves_props(v);
        lemma_prefix_all(k, leaves(v));
        let a0 = field_leaves(m0);
        let b0 = prefix_all(k, leaves(v));
        let r = field_leaves(m);
        assert(r == a0 + b0);
        assert forall|j: int| 0 <= j < r.len() implies split_dots(join_all(Seq::empty(), #[trigger] r[j].0)) == r[j].0 by {
            if j < a0.len() {
                assert(r[j] == a0[j]);
            } else {
                let y = leaves(v)[j - a0.len()];
                assert(r[j] == b0[j - a0.len()]);
                let segs = seq![k] + y.0;
                assert(r[j].0 == segs);
                assert(segs[0] == k);
                assert(segs.drop_first() =~= y.0);
                assert(join_path(Seq::empty(), k) == k);
                assert(join_all(Seq::empty(), segs) == join_all(k, y.0));
                lemma_split_dot_free(k);
                if v is Object {
                    assert(k.len() > 0);
                    assert(segs_dot_free(y.0));
                    lemma_join_all_split(k, y.0);
                    assert(seq![k] + y.0 =~= segs);
                } else {
                    assert(leaves(v)[0] == (Seq::<Seq<char>>::empty(), v));
                    assert(y.0 =~= Seq::<Seq<char>>::empty());
                    assert(segs =~= seq![k]);
                }
            }
        }
    }
}

/// Flattening a storable document and rebuilding its nesting gives the
/// document back.
pub proof fn law_deflatten_flatten(v: JsonView)
    requires
        storable(v),
    ensures
        deflatten_spec(flatten_spec(v)) == Some(v),
{
    if let JsonView::Object(m) = v {
        let q = field_leaves(m);
        let l = joined(Seq::empty(), q);
        assert(object_keys_named(m));
        lemma_flatten_pairs_leaves(Seq::empty(), Seq::empty(), m);
        assert(flatten_into(Seq::empty(), Seq::empty(), v) == flatten_pairs_into(Seq::empty(), Seq::empty(), m));
        lemma_top_split(m);
        lemma_field_leaves_props(m);
        assert forall|j: int| 0 <= j < q.len() implies split_dots(#[trigger] l[j].0) == q[j].0 && l[j].1 == q[j].1 by {
            assert(l[j] == (join_all(Seq::empty(), q[j].0), q[j].1));
        }
        assert(keys_distinct(Seq::empty() + l)) by {
            let e = Seq::<(Seq<char>, JsonView)>::empty() + l;
            assert(e =~= l);
            assert forall|a: int, b: int| 0 <= a < b < l.len() implies (#[trigger] l[a]).0 != (#[trigger] l[b]).0 by {
                if l[a].0 == l[b].0 {
                    assert(split_dots(l[a].0) == q[a].0);
                    assert(split_dots(l[b].0) == q[b].0);
                }
            }
        }
        lemma_insert_all_fresh(Seq::empty(), l);
        assert(Seq::<(Seq<char>, JsonView)>::empty() + l =~= l);
        assert(flatten_spec(v) == JsonView::Object(l));
        lemma_deflatten_as_place(Seq::empty(), l, q);
        lemma_rebuild_fields(m);
    }
}

} // verus!
