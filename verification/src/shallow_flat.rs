//! One-level flattening, as the tree entry keeps its documents: the fields
//! of an object-valued field are lifted one level up under dotted keys, and
//! what they hold is flattened in the same way on its own.
//!
//! `{"a": {"b": {"c": 1}}, "d": 2}` becomes `{"a.b": {"c": 1}, "d": 2}`.

use crate::flat::{assoc_insert, find_first, first_pos, map_insert};
use crate::indexer::keys_distinct;
use crate::json::{lemma_view_pairs_len, view_pairs, JsonValue, JsonView};
use vstd::prelude::*;
use vstd::string::*;

verus! {

/// A document flattened by one level: see the module documentation.
pub open spec fn shallow_flatten(v: JsonView) -> JsonView
    decreases v,
{
    match v {
        JsonView::Object(m) => JsonView::Object(shallow_fields(m)),
        _ => v,
    }
}

/// The flattened fields of an object, inserted one after another.
pub open spec fn shallow_fields(m: Seq<(Seq<char>, JsonView)>) -> Seq<(Seq<char>, JsonView)>
    decreases m,
{
    if m.len() == 0 {
        Seq::empty()
    } else {
        match m.last().1 {
            JsonView::Object(obj) => shallow_sub(shallow_fields(m.drop_last()), m.last().0, obj),
            v => assoc_insert(shallow_fields(m.drop_last()), m.last().0, v),
        }
    }
}

/// `acc` after inserting each field `k` of `obj` under `key.k`, its value
/// flattened.
pub open spec fn shallow_sub(
    acc: Seq<(Seq<char>, JsonView)>,
    key: Seq<char>,
    obj: Seq<(Seq<char>, JsonView)>,
) -> Seq<(Seq<char>, JsonView)>
    decreases obj,
{
    if obj.len() == 0 {
        acc
    } else {
        assoc_insert(
            shallow_sub(acc, key, obj.drop_last()),
            key + seq!['.'] + obj.last().0,
            shallow_flatten(obj.last().1),
        )
    }
}

/// Flattens a document by one level.
pub fn flatten(v: JsonValue) -> (r: JsonValue)
    ensures
        r@ == shallow_flatten(v@),
        r@ matches JsonView::Object(m) ==> keys_distinct(m),
{
    flatten_ref(&v)
}

fn flatten_ref(v: &JsonValue) -> (r: JsonValue)
    ensures
        r@ == shallow_flatten(v@),
        r@ matches JsonView::Object(m) ==> keys_distinct(m),
    decreases v,
{
    match v {
        JsonValue::Object(map) => {
            proof {
                assert(decreases_to!(*v => (*v)->Object_0));
            }
            JsonValue::Object(flatten_value_map(map))
        },
        _ => v.copy(),
    }
}

/// The fields of an object flattened by one level.
fn flatten_value_map(map: &Vec<(String, JsonValue)>) -> (r: Vec<(String, JsonValue)>)
    ensures
        view_pairs(r@) == shallow_fields(view_pairs(map@)),
        keys_distinct(view_pairs(r@)),
    decreases map,
{
    let ghost m = view_pairs(map@);
    proof {
        lemma_view_pairs_len(map@);
        reveal_strlit(".");
    }
    let mut result: Vec<(String, JsonValue)> = Vec::new();
    assert(view_pairs(result@) =~= Seq::<(Seq<char>, JsonView)>::empty());
    assert(m.take(0) =~= Seq::<(Seq<char>, JsonView)>::empty());
    let mut i: usize = 0;
    while i < map.len()
        invariant
            i <= map@.len(),
            m == view_pairs(map@),
            m.len() == map@.len(),
            forall|q: int| 0 <= q < map@.len() ==> #[trigger] m[q] == (map@[q].0@, map@[q].1@),
            keys_distinct(view_pairs(result@)),
            view_pairs(result@) == shallow_fields(m.take(i as int)),
        decreases map@.len() - i,
    {
        proof {
            assert(m.take(i + 1).drop_last() =~= m.take(i as int));
            assert(m.take(i + 1).last() == m[i as int]);
            assert(decreases_to!(*map => map@));
            assert(decreases_to!(map@ => map@[i as int]));
            assert(decreases_to!(map@[i as int] => map@[i as int].1));
        }
        let key = &map[i].0;
        match &map[i].1 {
            JsonValue::Object(obj) => {
                let ghost om = view_pairs(obj@);
                let ghost acc = view_pairs(result@);
                proof {
                    lemma_view_pairs_len(obj@);
                    assert(om.take(0) =~= Seq::<(Seq<char>, JsonView)>::empty());
                    assert(decreases_to!(map@[i as int].1 => (map@[i as int].1)->Object_0));
                    assert(decreases_to!(*map => *obj));
                }
                let mut j: usize = 0;
                while j < obj.len()
                    invariant
                        j <= obj@.len(),
                        om == view_pairs(obj@),
                        om.len() == obj@.len(),
                        forall|q: int| 0 <= q < obj@.len() ==> #[trigger] om[q] == (obj@[q].0@, obj@[q].1@),
                        keys_distinct(view_pairs(result@)),
                        view_pairs(result@) == shallow_sub(acc, key@, om.take(j as int)),
                        i < map@.len(),
                        map@[i as int].1 == JsonValue::Object(*obj),
                        decreases_to!(*map => *obj),
                    decreases obj@.len() - j,
                {
                    proof {
                        assert(om.take(j + 1).drop_last() =~= om.take(j as int));
                        assert(om.take(j + 1).last() == om[j as int]);
                        assert(decreases_to!(*obj => obj@));
                        assert(decreases_to!(obj@ => obj@[j as int]));
                        assert(decreases_to!(obj@[j as int] => obj@[j as int].1));
                        assert(decreases_to!(*map => obj@[j as int].1));
                        reveal_strlit(".");
                    }
                    let new_key = key.clone().concat(".").concat(obj[j].0.as_str());
                    assert(new_key@ == key@ + seq!['.'] + om[j as int].0);
                    let value = flatten_ref(&obj[j].1);
                    let ghost before = view_pairs(result@);
                    map_insert(&mut result, new_key, value);
                    proof {
                        assert(shallow_sub(acc, key@, om.take(j + 1)) == assoc_insert(
                            shallow_sub(acc, key@, om.take(j as int)),
                            key@ + seq!['.'] + om[j as int].0,
                            shallow_flatten(om[j as int].1),
                        ));
                    }
                    j = j + 1;
                }
                proof {
                    assert(om.take(obj@.len() as int) =~= om);
                }
            },
            other => {
                map_insert(&mut result, key.clone(), other.copy());
            },
        }
        i = i + 1;
    }
    proof {
        assert(m.take(map@.len() as int) =~= m);
    }
    result
}

/// The position of the first dot of `k`.
pub open spec fn first_dot(k: Seq<char>) -> Option<int>
    decreases k.len(),
{
    if k.len() == 0 {
        None
    } else if k[0] == '.' {
        Some(0)
    } else {
        match first_dot(k.drop_first()) {
            Some(p) => Some(p + 1),
            None => None,
        }
    }
}

/// `k` cut at its first dot, as `splitn(2, '.')` cuts it.
pub open spec fn split_once(k: Seq<char>) -> Option<(Seq<char>, Seq<char>)> {
    match first_dot(k) {
        Some(p) => Some((k.take(p), k.skip(p + 1))),
        None => None,
    }
}

/// `m` with `(k, v)` added unless `k` is present already.
pub open spec fn or_insert<V>(m: Seq<(Seq<char>, V)>, k: Seq<char>, v: V) -> Seq<(Seq<char>, V)> {
    match first_pos(m, k) {
        Some(_) => m,
        None => m.push((k, v)),
    }
}

/// The groups after filing `(sk, v)` under `nk`: into the group of `nk`
/// unless `sk` is there already, or as a new group.
pub open spec fn group_put(
    t: Seq<(Seq<char>, Seq<(Seq<char>, JsonView)>)>,
    nk: Seq<char>,
    sk: Seq<char>,
    v: JsonView,
) -> Seq<(Seq<char>, Seq<(Seq<char>, JsonView)>)> {
    match first_pos(t, nk) {
        Some(p) => t.update(p, (nk, or_insert(t[p].1, sk, v))),
        None => t.push((nk, seq![(sk, v)])),
    }
}

/// Reading the pairs `m` in order: the keys without a dot, each kept at its
/// first occurrence, and the dotted keys grouped by the part before the
/// first dot, each rest kept at its first occurrence.
pub open spec fn collect(m: Seq<(Seq<char>, JsonView)>) -> (
    Seq<(Seq<char>, JsonView)>,
    Seq<(Seq<char>, Seq<(Seq<char>, JsonView)>)>,
)
    decreases m.len(),
{
    if m.len() == 0 {
        (Seq::empty(), Seq::empty())
    } else {
        let (r, t) = collect(m.drop_last());
        match split_once(m.last().0) {
            None => (or_insert(r, m.last().0, m.last().1), t),
            Some((nk, sk)) => (r, group_put(t, nk, sk, m.last().1)),
        }
    }
}

/// The size of pairs: one more than the length of each key.
pub open spec fn weight(m: Seq<(Seq<char>, JsonView)>) -> nat
    decreases m.len(),
{
    if m.len() == 0 {
        0
    } else {
        weight(m.drop_last()) + m.last().0.len() + 1
    }
}

/// The size of groups: one more than the size of each group.
pub open spec fn groups_weight(t: Seq<(Seq<char>, Seq<(Seq<char>, JsonView)>)>) -> nat
    decreases t.len(),
{
    if t.len() == 0 {
        0
    } else {
        groups_weight(t.drop_last()) + weight(t.last().1) + 1
    }
}

/// The object of the pairs `m` with one level of nesting rebuilt at each
/// first dot, and the groups rebuilt in the same way.
pub open spec fn unflatten(m: Seq<(Seq<char>, JsonView)>) -> Seq<(Seq<char>, JsonView)>
    decreases weight(m), 1nat, 0nat,
{
    proof {
        lemma_collect_weight(m);
    }
    place_groups(collect(m).0, collect(m).1, weight(m))
}

/// `r` after inserting each group rebuilt as an object.
pub open spec fn place_groups(
    r: Seq<(Seq<char>, JsonView)>,
    t: Seq<(Seq<char>, Seq<(Seq<char>, JsonView)>)>,
    bound: nat,
) -> Seq<(Seq<char>, JsonView)>
    decreases bound, 0nat, t.len(),
    when groups_weight(t) <= bound
{
    if t.len() == 0 {
        r
    } else {
        proof {
            lemma_groups_weight_prefix(t);
        }
        assoc_insert(place_groups(r, t.drop_last(), bound), t.last().0, JsonView::Object(unflatten(t.last().1)))
    }
}

/// A document with one level of nesting rebuilt at each first dot of its keys.
pub open spec fn shallow_deflatten(v: JsonView) -> JsonView {
    match v {
        JsonView::Object(m) => JsonView::Object(unflatten(m)),
        _ => v,
    }
}

pub proof fn lemma_first_dot(k: Seq<char>)
    ensures
        first_dot(k) matches Some(p) ==> 0 <= p < k.len() && k[p] == '.' && forall|q: int| 0 <= q < p ==> k[q] != '.',
        first_dot(k) is None ==> forall|q: int| 0 <= q < k.len() ==> k[q] != '.',
    decreases k.len(),
{
    if k.len() > 0 {
        lemma_first_dot(k.drop_first());
        assert forall|q: int| 0 < q < k.len() implies k[q] == k.drop_first()[q - 1] by {}
    }
}

pub proof fn lemma_groups_weight_prefix(t: Seq<(Seq<char>, Seq<(Seq<char>, JsonView)>)>)
    requires
        t.len() > 0,
    ensures
        groups_weight(t.drop_last()) <= groups_weight(t),
        weight(t.last().1) < groups_weight(t),
{
}

proof fn lemma_weight_update(m: Seq<(Seq<char>, JsonView)>, p: int, x: (Seq<char>, JsonView))
    requires
        0 <= p < m.len(),
    ensures
        weight(m.update(p, x)) + m[p].0.len() == weight(m) + x.0.len(),
    decreases m.len(),
{
    let u = m.update(p, x);
    if p == m.len() - 1 {
        assert(u.drop_last() =~= m.drop_last());
    } else {
        assert(u.drop_last() =~= m.drop_last().update(p, x));
        lemma_weight_update(m.drop_last(), p, x);
    }
}

proof fn lemma_groups_weight_update(
    t: Seq<(Seq<char>, Seq<(Seq<char>, JsonView)>)>,
    p: int,
    x: (Seq<char>, Seq<(Seq<char>, JsonView)>),
)
    requires
        0 <= p < t.len(),
    ensures
        groups_weight(t.update(p, x)) + weight(t[p].1) == groups_weight(t) + weight(x.1),
    decreases t.len(),
{
    let u = t.update(p, x);
    if p == t.len() - 1 {
        assert(u.drop_last() =~= t.drop_last());
    } else {
        assert(u.drop_last() =~= t.drop_last().update(p, x));
        lemma_groups_weight_update(t.drop_last(), p, x);
    }
}

/// The groups weigh no more than the pairs they were read from.
pub proof fn lemma_collect_weight(m: Seq<(Seq<char>, JsonView)>)
    ensures
        groups_weight(collect(m).1) <= weight(m),
    decreases m.len(),
{
    if m.len() > 0 {
        lemma_collect_weight(m.drop_last());
        let (r, t) = collect(m.drop_last());
        let k = m.last().0;
        assert(weight(m) == weight(m.drop_last()) + k.len() + 1);
        if let Some((nk, sk)) = split_once(k) {
            lemma_first_dot(k);
            let p = first_dot(k).unwrap();
            assert(sk.len() + 1 <= k.len());
            assert(collect(m).1 == group_put(t, nk, sk, m.last().1));
            match first_pos(t, nk) {
                Some(q) => {
                    lemma_first_pos_in(t, nk);
                    let g = or_insert(t[q].1, sk, m.last().1);
                    assert(weight(g) <= weight(t[q].1) + sk.len() + 1) by {
                        if first_pos(t[q].1, sk) is None {
                            assert(g.drop_last() =~= t[q].1);
                        }
                    }
                    lemma_groups_weight_update(t, q, (nk, g));
                    assert(group_put(t, nk, sk, m.last().1) == t.update(q, (nk, g)));
                },
                None => {
                    let g: Seq<(Seq<char>, JsonView)> = seq![(sk, m.last().1)];
                    assert(g.drop_last() =~= Seq::<(Seq<char>, JsonView)>::empty());
                    assert(g.last() == (sk, m.last().1));
                    assert(weight(g.drop_last()) == 0);
                    assert(weight(g) == sk.len() + 1);
                    assert(t.push((nk, g)).drop_last() =~= t);
                    assert(t.push((nk, g)).last() == (nk, g));
                    assert(group_put(t, nk, sk, m.last().1) == t.push((nk, g)));
                },
            }
        } else {
            assert(collect(m).1 == t);
        }
    }
}

proof fn lemma_first_pos_in<V>(m: Seq<(Seq<char>, V)>, k: Seq<char>)
    ensures
        first_pos(m, k) matches Some(p) ==> 0 <= p < m.len() && m[p].0 == k,
    decreases m.len(),
{
    if m.len() > 0 {
        lemma_first_pos_in(m.drop_first(), k);
    }
}

/// The models of groups of pairs.
pub open spec fn view_groups(t: Seq<(String, Vec<(String, JsonValue)>)>) -> Seq<(Seq<char>, Seq<(Seq<char>, JsonView)>)> {
    t.map_values(|g: (String, Vec<(String, JsonValue)>)| (g.0@, view_pairs(g.1@)))
}

proof fn lemma_groups_weight_each(t: Seq<(Seq<char>, Seq<(Seq<char>, JsonView)>)>)
    ensures
        forall|j: int| 0 <= j < t.len() ==> weight((#[trigger] t[j]).1) < groups_weight(t),
    decreases t.len(),
{
    if t.len() > 0 {
        lemma_groups_weight_each(t.drop_last());
        assert forall|j: int| 0 <= j < t.len() implies weight((#[trigger] t[j]).1) < groups_weight(t) by {
            if j < t.len() - 1 {
                assert(t[j] == t.drop_last()[j]);
            }
        }
    }
}

proof fn lemma_groups_weight_take(t: Seq<(Seq<char>, Seq<(Seq<char>, JsonView)>)>, j: int)
    requires
        0 <= j <= t.len(),
    ensures
        groups_weight(t.take(j)) <= groups_weight(t),
    decreases t.len() - j,
{
    if j < t.len() {
        lemma_groups_weight_take(t, j + 1);
        assert(t.take(j + 1).drop_last() =~= t.take(j));
    } else {
        assert(t.take(j) =~= t);
    }
}

proof fn lemma_first_pos_none<V>(m: Seq<(Seq<char>, V)>, k: Seq<char>)
    ensures
        first_pos(m, k) is None ==> forall|i: int| 0 <= i < m.len() ==> (#[trigger] m[i]).0 != k,
    decreases m.len(),
{
    if m.len() > 0 {
        lemma_first_pos_none(m.drop_first(), k);
        assert forall|i: int| 0 < i < m.len() implies #[trigger] m[i] == m.drop_first()[i - 1] by {}
    }
}

/// The position of the first dot of `k`.
fn first_dot_pos(k: &String) -> (r: Option<usize>)
    ensures
        r matches Some(p) ==> first_dot(k@) == Some(p as int),
        r is None ==> first_dot(k@) is None,
{
    let s = k.as_str();
    let n = s.unicode_len();
    let mut i: usize = 0;
    assert(k@.skip(0) =~= k@);
    while i < n
        invariant
            n == k@.len(),
            s@ == k@,
            i <= n,
            first_dot(k@) == (match first_dot(k@.skip(i as int)) {
                Some(p) => Some(p + i),
                None => None,
            }),
        decreases n - i,
    {
        let c = s.get_char(i);
        assert(k@.skip(i as int)[0] == c);
        if c == '.' {
            return Some(i);
        }
        assert(k@.skip(i as int).drop_first() =~= k@.skip(i + 1));
        i = i + 1;
    }
    None
}

/// `k` cut at its first dot.
fn split_key(k: &String) -> (r: Option<(String, String)>)
    ensures
        r matches Some(p) ==> split_once(k@) == Some((p.0@, p.1@)),
        r is None ==> split_once(k@) is None,
{
    match first_dot_pos(k) {
        Some(p) => {
            proof {
                lemma_first_dot(k@);
            }
            let s = k.as_str();
            let n = s.unicode_len();
            let a = s.substring_char(0, p).to_owned();
            let b = s.substring_char(p + 1, n).to_owned();
            assert(a@ =~= k@.take(p as int));
            assert(b@ =~= k@.skip(p + 1));
            Some((a, b))
        },
        None => None,
    }
}

/// The position of the first group named `k`.
fn find_group(t: &Vec<(String, Vec<(String, JsonValue)>)>, k: &String) -> (r: Option<usize>)
    ensures
        r matches Some(i) ==> i < t@.len() && first_pos(view_groups(t@), k@) == Some(i as int),
        r is None ==> first_pos(view_groups(t@), k@) is None,
{
    let ghost g = view_groups(t@);
    let mut i: usize = 0;
    assert(g.skip(0) =~= g);
    while i < t.len()
        invariant
            i <= t@.len(),
            g == view_groups(t@),
            g.len() == t@.len(),
            first_pos(g, k@) == (match first_pos(g.skip(i as int), k@) {
                Some(p) => Some(p + i),
                None => None,
            }),
        decreases t@.len() - i,
    {
        assert(g.skip(i as int)[0] == g[i as int]);
        if t[i].0 == *k {
            return Some(i);
        }
        assert(g.skip(i as int).drop_first() =~= g.skip(i + 1));
        i = i + 1;
    }
    None
}

/// The pairs `map` with one level of nesting rebuilt: see `unflatten`.
fn deflatten_value_map(map: &Vec<(String, JsonValue)>) -> (r: Vec<(String, JsonValue)>)
    ensures
        view_pairs(r@) == unflatten(view_pairs(map@)),
        keys_distinct(view_pairs(r@)),
    decreases weight(view_pairs(map@)),
{
    let ghost m = view_pairs(map@);
    proof {
        lemma_view_pairs_len(map@);
    }
    let mut result: Vec<(String, JsonValue)> = Vec::new();
    let mut temp: Vec<(String, Vec<(String, JsonValue)>)> = Vec::new();
    assert(view_pairs(result@) =~= Seq::<(Seq<char>, JsonView)>::empty());
    assert(view_groups(temp@) =~= Seq::<(Seq<char>, Seq<(Seq<char>, JsonView)>)>::empty());
    assert(m.take(0) =~= Seq::<(Seq<char>, JsonView)>::empty());
    let mut i: usize = 0;
    while i < map.len()
        invariant
            i <= map@.len(),
            m == view_pairs(map@),
            m.len() == map@.len(),
            forall|q: int| 0 <= q < map@.len() ==> #[trigger] m[q] == (map@[q].0@, map@[q].1@),
            keys_distinct(view_pairs(result@)),
            collect(m.take(i as int)) == (view_pairs(result@), view_groups(temp@)),
        decreases map@.len() - i,
    {
        proof {
            assert(m.take(i + 1).drop_last() =~= m.take(i as int));
            assert(m.take(i + 1).last() == m[i as int]);
            lemma_view_pairs_len(result@);
        }
        let ghost r0 = view_pairs(result@);
        let ghost t0 = view_groups(temp@);
        let ghost v = m[i as int].1;
        match split_key(&map[i].0) {
            None => {
                match find_first(&result, &map[i].0) {
                    Some(_) => {},
                    None => {
                        result.push((map[i].0.clone(), map[i].1.copy()));
                        proof {
                            lemma_view_pairs_len(result@);
                            assert(view_pairs(result@) =~= r0.push(m[i as int]));
                            lemma_first_pos_none(r0, m[i as int].0);
                            let r1 = view_pairs(result@);
                            assert forall|a: int, b: int| 0 <= a < b < r1.len() implies (#[trigger] r1[a]).0 != (#[trigger] r1[b]).0 by {
                                if b < r0.len() {
                                    assert(r1[a] == r0[a] && r1[b] == r0[b]);
                                } else {
                                    assert(r1[a] == r0[a]);
                                }
                            }
                        }
                    },
                }
            },
            Some((nk, sk)) => {
                let ghost nkv = nk@;
                let ghost skv = sk@;
                match find_group(&temp, &nk) {
                    Some(p) => {
                        proof {
                            lemma_first_pos_in(t0, nkv);
                            assert(t0[p as int] == (temp@[p as int].0@, view_pairs(temp@[p as int].1@)));
                        }
                        match find_first(&temp[p].1, &sk) {
                            Some(_) => {
                                proof {
                                    assert(t0.update(p as int, (nkv, t0[p as int].1)) =~= t0);
                                }
                            },
                            None => {
                                let mut slot = (String::new(), Vec::new());
                                std::mem::swap(&mut slot, &mut temp[p]);
                                let ghost g0 = slot.1@;
                                slot.1.push((sk, map[i].1.copy()));
                                proof {
                                    lemma_view_pairs_len(slot.1@);
                                    lemma_view_pairs_len(g0);
                                    assert(view_pairs(slot.1@) =~= view_pairs(g0).push((skv, v)));
                                }
                                temp.set(p, slot);
                                proof {
                                    assert(view_groups(temp@) =~= t0.update(p as int, (nkv, view_pairs(g0).push((skv, v)))));
                                }
                            },
                        }
                    },
                    None => {
                        let mut g: Vec<(String, JsonValue)> = Vec::new();
                        g.push((sk, map[i].1.copy()));
                        proof {
                            lemma_view_pairs_len(g@);
                            assert(view_pairs(g@) =~= seq![(skv, v)]);
                        }
                        temp.push((nk, g));
                        proof {
                            assert(view_groups(temp@) =~= t0.push((nkv, seq![(skv, v)])));
                        }
                    },
                }
            },
        }
        i = i + 1;
    }
    proof {
        assert(m.take(map@.len() as int) =~= m);
        lemma_collect_weight(m);
        lemma_groups_weight_each(view_groups(temp@));
    }
    let ghost r0 = view_pairs(result@);
    let ghost t = view_groups(temp@);
    let ghost bound = weight(m);
    assert(t.take(0) =~= Seq::<(Seq<char>, Seq<(Seq<char>, JsonView)>)>::empty());
    let mut j: usize = 0;
    while j < temp.len()
        invariant
            j <= temp@.len(),
            t == view_groups(temp@),
            t.len() == temp@.len(),
            groups_weight(t) <= bound,
            bound == weight(m),
            m == view_pairs(map@),
            forall|q: int| 0 <= q < t.len() ==> weight((#[trigger] t[q]).1) < groups_weight(t),
            keys_distinct(view_pairs(result@)),
            view_pairs(result@) == place_groups(r0, t.take(j as int), bound),
        decreases temp@.len() - j,
    {
        proof {
            lemma_groups_weight_take(t, j + 1);
            lemma_groups_weight_take(t, j as int);
            assert(t.take(j + 1).drop_last() =~= t.take(j as int));
            assert(t.take(j + 1).last() == t[j as int]);
            assert(t[j as int] == (temp@[j as int].0@, view_pairs(temp@[j as int].1@)));
        }
        let sub = deflatten_value_map(&temp[j].1);
        map_insert(&mut result, temp[j].0.clone(), JsonValue::Object(sub));
        j = j + 1;
    }
    proof {
        assert(t.take(temp@.len() as int) =~= t);
    }
    result
}

/// Rebuilds one level of nesting at the first dot of each key, and the
/// groups it makes in the same way.
pub fn deflatten(v: JsonValue) -> (r: JsonValue)
    ensures
        r@ == shallow_deflatten(v@),
{
    match v {
        JsonValue::Object(map) => JsonValue::Object(deflatten_value_map(&map)),
        _ => v,
    }
}
} // verus!
