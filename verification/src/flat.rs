//! Flattening a document so that every nested field is reached by a dotted
//! path, and rebuilding the nesting from such paths.
//!
//! `{"a": {"b": 1}, "c": 2}` flattens to `{"a.b": 1, "c": 2}`. Plain values
//! stay as they are. Objects are sequences of (key, value) pairs; inserting
//! a key that is present replaces its value in place, and a new key goes
//! last.

use crate::indexer::{flat, key_pos, keys_distinct, lemma_key_pos};
use crate::json::{lemma_view_pairs_len, view_pairs, JsonValue, JsonView};
use vstd::prelude::*;
use vstd::string::*;

verus! {

/// The path of field `k` under path `path`: `k` itself under the empty
/// path, otherwise `path.k`.
pub open spec fn join_path(path: Seq<char>, k: Seq<char>) -> Seq<char> {
    if path.len() == 0 {
        k
    } else {
        path + seq!['.'] + k
    }
}

/// Inserting a pair into an object: replaces the value of a present key in
/// place, or appends the pair.
pub open spec fn assoc_insert(m: Seq<(Seq<char>, JsonView)>, k: Seq<char>, v: JsonView) -> Seq<
    (Seq<char>, JsonView),
> {
    match key_pos(m, k) {
        Some(p) => m.update(p, (k, v)),
        None => m.push((k, v)),
    }
}

/// The object `acc` after inserting every leaf of `v` under `path`.
pub open spec fn flatten_into(acc: Seq<(Seq<char>, JsonView)>, path: Seq<char>, v: JsonView) -> Seq<
    (Seq<char>, JsonView),
>
    decreases v,
{
    match v {
        JsonView::Object(m) => flatten_pairs_into(acc, path, m),
        _ => assoc_insert(acc, path, v),
    }
}

/// The object `acc` after inserting every leaf of the fields `m` under `path`.
pub open spec fn flatten_pairs_into(
    acc: Seq<(Seq<char>, JsonView)>,
    path: Seq<char>,
    m: Seq<(Seq<char>, JsonView)>,
) -> Seq<(Seq<char>, JsonView)>
    decreases m,
{
    if m.len() == 0 {
        acc
    } else {
        flatten_into(
            flatten_pairs_into(acc, path, m.drop_last()),
            join_path(path, m.last().0),
            m.last().1,
        )
    }
}

/// A document flattened: an object becomes the object of its leaves by
/// path; any other value stays.
pub open spec fn flatten_spec(v: JsonView) -> JsonView {
    match v {
        JsonView::Object(_) => JsonView::Object(flatten_into(Seq::empty(), Seq::empty(), v)),
        _ => v,
    }
}

/// Inserting keeps keys distinct.
pub proof fn lemma_assoc_insert(m: Seq<(Seq<char>, JsonView)>, k: Seq<char>, v: JsonView)
    requires
        keys_distinct(m),
    ensures
        keys_distinct(assoc_insert(m, k, v)),
        forall|q: int| 0 <= q < m.len() ==> (#[trigger] m[q]).1 is Object || !((#[trigger] assoc_insert(m, k, v)[q]).1 is Object) || q == key_pos(m, k).unwrap(),
{
    lemma_key_pos(m, k);
    let r = assoc_insert(m, k, v);
    assert forall|a: int, b: int| 0 <= a < b < r.len() implies (#[trigger] r[a]).0 != (#[trigger] r[b]).0 by {
        if b < m.len() {
            assert(r[a].0 == m[a].0 && r[b].0 == m[b].0);
        } else {
            assert(r[a] == m[a]);
        }
    }
}

/// Inserting into an object (with distinct keys, no object values) a value
/// that is not an object keeps it flat.
proof fn lemma_assoc_insert_flat(m: Seq<(Seq<char>, JsonView)>, k: Seq<char>, v: JsonView)
    requires
        flat(JsonView::Object(m)),
        !(v is Object),
    ensures
        flat(JsonView::Object(assoc_insert(m, k, v))),
{
    lemma_assoc_insert(m, k, v);
    lemma_key_pos(m, k);
    let r = assoc_insert(m, k, v);
    assert forall|j: int| 0 <= j < r.len() implies !((#[trigger] r[j]).1 is Object) by {
        if j < m.len() && Some(j) != key_pos(m, k) {
            assert(r[j] == m[j]);
        }
    }
}

/// Flattening into a flat object keeps it flat.
pub proof fn lemma_flatten_into_flat(acc: Seq<(Seq<char>, JsonView)>, path: Seq<char>, v: JsonView)
    requires
        flat(JsonView::Object(acc)),
    ensures
        flat(JsonView::Object(flatten_into(acc, path, v))),
    decreases v, 1int,
{
    match v {
        JsonView::Object(m) => lemma_flatten_pairs_into_flat(acc, path, m),
        _ => lemma_assoc_insert_flat(acc, path, v),
    }
}

pub proof fn lemma_flatten_pairs_into_flat(
    acc: Seq<(Seq<char>, JsonView)>,
    path: Seq<char>,
    m: Seq<(Seq<char>, JsonView)>,
)
    requires
        flat(JsonView::Object(acc)),
    ensures
        flat(JsonView::Object(flatten_pairs_into(acc, path, m))),
    decreases m, 0int,
{
    if m.len() > 0 {
        lemma_flatten_pairs_into_flat(acc, path, m.drop_last());
        lemma_flatten_into_flat(flatten_pairs_into(acc, path, m.drop_last()), join_path(path, m.last().0), m.last().1);
    }
}

/// A flattened document is flat.
pub proof fn lemma_flatten_is_flat(v: JsonView)
    ensures
        flat(flatten_spec(v)),
{
    if v is Object {
        assert(flat(JsonView::Object(Seq::empty())));
        lemma_flatten_into_flat(Seq::empty(), Seq::empty(), v);
    }
}

/// The position of key `k` in object `m`, if present.
fn find_key_pos(m: &Vec<(String, JsonValue)>, k: &String) -> (r: Option<usize>)
    requires
        keys_distinct(view_pairs(m@)),
    ensures
        r matches Some(i) ==> i < m@.len() && key_pos(view_pairs(m@), k@) == Some(i as int),
        r is None ==> key_pos(view_pairs(m@), k@) is None,
{
    let ghost m0 = view_pairs(m@);
    proof {
        lemma_view_pairs_len(m@);
        lemma_key_pos(m0, k@);
    }
    let mut i: usize = 0;
    while i < m.len()
        invariant
            i <= m@.len(),
            m0 == view_pairs(m@),
            m0.len() == m@.len(),
            forall|q: int| 0 <= q < m@.len() ==> #[trigger] m0[q] == (m@[q].0@, m@[q].1@),
            forall|q: int| 0 <= q < i ==> (#[trigger] m0[q]).0 != k@,
            keys_distinct(m0),
        decreases m@.len() - i,
    {
        if m[i].0 == *k {
            proof {
                assert(m0[i as int].0 == k@);
                lemma_key_pos(m0, k@);
            }
            return Some(i);
        }
        i = i + 1;
    }
    proof {
        lemma_key_pos(m0, k@);
    }
    None
}

/// Inserts `(k, v)` into object `m`.
pub(crate) fn map_insert(m: &mut Vec<(String, JsonValue)>, k: String, v: JsonValue)
    requires
        keys_distinct(view_pairs(old(m)@)),
    ensures
        view_pairs(final(m)@) == assoc_insert(view_pairs(old(m)@), k@, v@),
        keys_distinct(view_pairs(final(m)@)),
{
    let ghost m0 = view_pairs(m@);
    let ghost kv = k@;
    let ghost vv = v@;
    proof {
        lemma_view_pairs_len(m@);
        lemma_assoc_insert(m0, kv, vv);
    }
    match find_key_pos(m, &k) {
        Some(i) => {
            m.set(i, (k, v));
            proof {
                lemma_view_pairs_len(m@);
                assert(view_pairs(m@) =~= m0.update(i as int, (kv, vv)));
            }
        },
        None => {
            m.push((k, v));
            proof {
                lemma_view_pairs_len(m@);
                assert(view_pairs(m@) =~= m0.push((kv, vv)));
            }
        },
    }
}

/// Inserts every leaf of `value` under `path` into `result`.
fn flatten_helper(path: &String, value: &JsonValue, result: &mut Vec<(String, JsonValue)>)
    requires
        keys_distinct(view_pairs(old(result)@)),
    ensures
        keys_distinct(view_pairs(final(result)@)),
        view_pairs(final(result)@) == flatten_into(view_pairs(old(result)@), path@, value@),
    decreases value,
{
    match value {
        JsonValue::Object(map) => {
            let ghost m = view_pairs(map@);
            let ghost acc0 = view_pairs(result@);
            proof {
                lemma_view_pairs_len(map@);
                reveal_strlit(".");
            }
            let mut j: usize = 0;
            while j < map.len()
                invariant
                    j <= map@.len(),
                    m == view_pairs(map@),
                    m.len() == map@.len(),
                    forall|q: int| 0 <= q < map@.len() ==> #[trigger] m[q] == (map@[q].0@, map@[q].1@),
                    *value == JsonValue::Object(*map),
                    keys_distinct(view_pairs(result@)),
                    view_pairs(result@) == flatten_pairs_into(acc0, path@, m.take(j as int)),
                decreases map@.len() - j,
            {
                proof {
                    assert(decreases_to!(*value => (*value)->Object_0));
                    assert(decreases_to!(*map => map@));
                    assert(decreases_to!(map@ => map@[j as int]));
                    assert(decreases_to!(map@[j as int] => map@[j as int].1));
                    reveal_strlit(".");
                }
                let k = &map[j].0;
                let new_path = if path.as_str().is_empty() {
                    k.clone()
                } else {
                    path.clone().concat(".").concat(k.as_str())
                };
                assert(new_path@ == join_path(path@, k@));
                flatten_helper(&new_path, &map[j].1, result);
                proof {
                    assert(m.take(j + 1).drop_last() =~= m.take(j as int));
                    assert(m.take(j + 1).last() == m[j as int]);
                }
                j = j + 1;
            }
            proof {
                assert(m.take(map@.len() as int) =~= m);
            }
        },
        _ => {
            map_insert(result, path.clone(), value.copy());
        },
    }
}

/// Flattens a document: an object becomes the object of its leaves keyed by
/// dotted path; any other value is returned as it is.
pub fn flatten(v: JsonValue) -> (r: JsonValue)
    ensures
        r@ == flatten_spec(v@),
        flat(r@),
{
    proof {
        lemma_flatten_is_flat(v@);
    }
    match &v {
        JsonValue::Object(_) => {
            let mut result: Vec<(String, JsonValue)> = Vec::new();
            let root = String::new();
            proof {
                assert(view_pairs(result@) =~= Seq::<(Seq<char>, JsonView)>::empty());
            }
            flatten_helper(&root, &v, &mut result);
            JsonValue::Object(result)
        },
        _ => v,
    }
}


/// Scanning `s` for dots: the segments closed so far and the open one.
pub open spec fn split_state(s: Seq<char>) -> (Seq<Seq<char>>, Seq<char>)
    decreases s.len(),
{
    if s.len() == 0 {
        (Seq::empty(), Seq::empty())
    } else {
        let (d, c) = split_state(s.drop_last());
        if s.last() == '.' {
            (d.push(c), Seq::empty())
        } else {
            (d, c.push(s.last()))
        }
    }
}

/// The segments of `s` between dots, as `str::split('.')` gives them.
pub open spec fn split_dots(s: Seq<char>) -> Seq<Seq<char>> {
    split_state(s).0.push(split_state(s).1)
}

/// The position of the first pair with key `k`.
pub open spec fn first_pos<V>(m: Seq<(Seq<char>, V)>, k: Seq<char>) -> Option<int>
    decreases m.len(),
{
    if m.len() == 0 {
        None
    } else if m[0].0 == k {
        Some(0)
    } else {
        match first_pos(m.drop_first(), k) {
            Some(p) => Some(p + 1),
            None => None,
        }
    }
}

/// Inserting a pair: replaces the value of the first pair with that key, or
/// appends the pair.
pub open spec fn put_first(m: Seq<(Seq<char>, JsonView)>, k: Seq<char>, v: JsonView) -> Seq<
    (Seq<char>, JsonView),
> {
    match first_pos(m, k) {
        Some(p) => m.update(p, (k, v)),
        None => m.push((k, v)),
    }
}

/// The object after placing `v` at path `segs` inside `m`, creating the
/// objects on the way; `None` when the way is blocked by a value that is not
/// an object.
pub open spec fn insert_path(m: Seq<(Seq<char>, JsonView)>, segs: Seq<Seq<char>>, v: JsonView) -> Option<
    Seq<(Seq<char>, JsonView)>,
>
    decreases segs.len(),
{
    if segs.len() == 0 {
        Some(m)
    } else if segs.len() == 1 {
        Some(put_first(m, segs[0], v))
    } else {
        match first_pos(m, segs[0]) {
            Some(p) => match m[p].1 {
                JsonView::Object(c) => match insert_path(c, segs.drop_first(), v) {
                    Some(c2) => Some(m.update(p, (m[p].0, JsonView::Object(c2)))),
                    None => None,
                },
                _ => None,
            },
            None => match insert_path(Seq::empty(), segs.drop_first(), v) {
                Some(c2) => Some(m.push((segs[0], JsonView::Object(c2)))),
                None => None,
            },
        }
    }
}

/// The object rebuilt from the flat pairs `pairs`, one after another.
pub open spec fn deflatten_pairs(acc: Seq<(Seq<char>, JsonView)>, pairs: Seq<(Seq<char>, JsonView)>) -> Option<
    Seq<(Seq<char>, JsonView)>,
>
    decreases pairs.len(),
{
    if pairs.len() == 0 {
        Some(acc)
    } else {
        match deflatten_pairs(acc, pairs.drop_last()) {
            Some(a) => insert_path(a, split_dots(pairs.last().0), pairs.last().1),
            None => None,
        }
    }
}

/// A document with its nesting rebuilt from dotted keys; `None` when a key
/// would have to pass through a value that is not an object.
pub open spec fn deflatten_spec(v: JsonView) -> Option<JsonView> {
    match v {
        JsonView::Object(m) => match deflatten_pairs(Seq::empty(), m) {
            Some(r) => Some(JsonView::Object(r)),
            None => None,
        },
        _ => Some(v),
    }
}

/// The models of a sequence of strings.
pub open spec fn view_strings(s: Seq<String>) -> Seq<Seq<char>> {
    s.map_values(|x: String| x@)
}

/// The segments of `key` between dots.
pub fn split_path(key: &String) -> (r: Vec<String>)
    ensures
        view_strings(r@) == split_dots(key@),
{
    let s = key.as_str();
    let n = s.unicode_len();
    let mut segs: Vec<String> = Vec::new();
    let mut start: usize = 0;
    let mut i: usize = 0;
    while i < n
        invariant
            n == s@.len(),
            s@ == key@,
            start <= i <= n,
            view_strings(segs@) == split_state(s@.take(i as int)).0,
            s@.subrange(start as int, i as int) == split_state(s@.take(i as int)).1,
        decreases n - i,
    {
        let c = s.get_char(i);
        proof {
            assert(s@.take(i + 1).drop_last() =~= s@.take(i as int));
            assert(s@.take(i + 1).last() == c);
        }
        if c == '.' {
            let seg = s.substring_char(start, i).to_owned();
            let ghost before = segs@;
            segs.push(seg);
            proof {
                assert(view_strings(segs@) =~= view_strings(before).push(seg@));
                assert(s@.subrange((i + 1) as int, (i + 1) as int) =~= Seq::<char>::empty());
            }
            start = i + 1;
        } else {
            proof {
                assert(s@.subrange(start as int, (i + 1) as int) =~= s@.subrange(start as int, i as int).push(c));
            }
        }
        i = i + 1;
    }
    let last = s.substring_char(start, n).to_owned();
    let ghost before = segs@;
    segs.push(last);
    proof {
        assert(s@.take(n as int) =~= s@);
        assert(view_strings(segs@) =~= view_strings(before).push(last@));
    }
    segs
}

/// The position of the first pair with key `k`.
pub(crate) fn find_first(m: &Vec<(String, JsonValue)>, k: &String) -> (r: Option<usize>)
    ensures
        r matches Some(i) ==> i < m@.len() && first_pos(view_pairs(m@), k@) == Some(i as int),
        r is None ==> first_pos(view_pairs(m@), k@) is None,
{
    let ghost m0 = view_pairs(m@);
    proof {
        lemma_view_pairs_len(m@);
    }
    let mut i: usize = 0;
    assert(m0.skip(0) =~= m0);
    while i < m.len()
        invariant
            i <= m@.len(),
            m0 == view_pairs(m@),
            m0.len() == m@.len(),
            forall|q: int| 0 <= q < m@.len() ==> #[trigger] m0[q] == (m@[q].0@, m@[q].1@),
            first_pos(m0, k@) == (match first_pos(m0.skip(i as int), k@) {
                Some(p) => Some(p + i),
                None => None,
            }),
        decreases m@.len() - i,
    {
        assert(m0.skip(i as int)[0] == m0[i as int]);
        if m[i].0 == *k {
            return Some(i);
        }
        assert(m0.skip(i as int).drop_first() =~= m0.skip(i + 1));
        i = i + 1;
    }
    None
}

/// Places `value` at path `segs[pos..]` inside object `map`, creating the
/// objects on the way. Returns `false`, with `map` in an unspecified state,
/// when the way is blocked by a value that is not an object.
fn insert_to_map(map: &mut Vec<(String, JsonValue)>, segs: &Vec<String>, pos: usize, value: JsonValue) -> (ok: bool)
    requires
        pos < segs@.len(),
    ensures
        ok == insert_path(view_pairs(old(map)@), view_strings(segs@).skip(pos as int), value@) is Some,
        ok ==> insert_path(view_pairs(old(map)@), view_strings(segs@).skip(pos as int), value@) == Some(
            view_pairs(final(map)@),
        ),
    decreases segs@.len() - pos,
{
    let ghost m0 = view_pairs(map@);
    let ghost rest = view_strings(segs@).skip(pos as int);
    proof {
        lemma_view_pairs_len(map@);
        assert(rest[0] == segs@[pos as int]@);
        assert(rest.drop_first() =~= view_strings(segs@).skip(pos + 1));
    }
    if pos == segs.len() - 1 {
        let key = segs[pos].clone();
        let ghost kv = key@;
        let ghost vv = value@;
        match find_first(map, &key) {
            Some(i) => {
                map.set(i, (key, value));
                proof {
                    lemma_view_pairs_len(map@);
                    assert(view_pairs(map@) =~= m0.update(i as int, (kv, vv)));
                }
            },
            None => {
                map.push((key, value));
                proof {
                    lemma_view_pairs_len(map@);
                    assert(view_pairs(map@) =~= m0.push((kv, vv)));
                }
            },
        }
        true
    } else {
        let found = find_first(map, &segs[pos]);
        let p = match found {
            Some(p) => p,
            None => {
                map.push((segs[pos].clone(), JsonValue::Object(Vec::new())));
                proof {
                    lemma_view_pairs_len(map@);
                    assert(view_pairs(Seq::<(String, JsonValue)>::empty()) =~= Seq::<(Seq<char>, JsonView)>::empty());
                }
                map.len() - 1
            },
        };
        let ghost m1 = view_pairs(map@);
        proof {
            lemma_view_pairs_len(map@);
        }
        let mut slot = (String::new(), JsonValue::Null);
        std::mem::swap(&mut slot, &mut map[p]);
        let ghost key_view = slot.0@;
        match slot.1 {
            JsonValue::Object(mut child) => {
                let ok = insert_to_map(&mut child, segs, pos + 1, value);
                let ghost cv = view_pairs(child@);
                map.set(p, (slot.0, JsonValue::Object(child)));
                proof {
                    lemma_view_pairs_len(map@);
                    assert(view_pairs(map@) =~= m1.update(p as int, (key_view, JsonView::Object(cv))));
                    if found is None {
                        assert(m1 =~= m0.push((rest[0], JsonView::Object(Seq::empty()))));
                        assert(view_pairs(map@) =~= m0.push((rest[0], JsonView::Object(cv))));
                    }
                }
                ok
            },
            _ => {
                proof {
                    assert(found is Some);
                }
                false
            },
        }
    }
}

/// Rebuilds the nesting of the flat pairs `map`, pair after pair.
fn deflatten_helper(map: &Vec<(String, JsonValue)>) -> (r: Option<Vec<(String, JsonValue)>>)
    ensures
        r matches Some(m) ==> deflatten_pairs(Seq::empty(), view_pairs(map@)) == Some(view_pairs(m@)),
        r is None ==> deflatten_pairs(Seq::empty(), view_pairs(map@)) is None,
{
    let ghost pairs = view_pairs(map@);
    proof {
        lemma_view_pairs_len(map@);
    }
    let mut result: Vec<(String, JsonValue)> = Vec::new();
    assert(view_pairs(result@) =~= Seq::<(Seq<char>, JsonView)>::empty());
    let mut j: usize = 0;
    while j < map.len()
        invariant
            j <= map@.len(),
            pairs == view_pairs(map@),
            pairs.len() == map@.len(),
            forall|q: int| 0 <= q < map@.len() ==> #[trigger] pairs[q] == (map@[q].0@, map@[q].1@),
            deflatten_pairs(Seq::empty(), pairs.take(j as int)) == Some(view_pairs(result@)),
        decreases map@.len() - j,
    {
        let segs = split_path(&map[j].0);
        proof {
            assert(pairs.take(j + 1).drop_last() =~= pairs.take(j as int));
            assert(pairs.take(j + 1).last() == pairs[j as int]);
            assert(view_strings(segs@).len() >= 1);
            assert(view_strings(segs@).skip(0) =~= view_strings(segs@));
        }
        let ok = insert_to_map(&mut result, &segs, 0, map[j].1.copy());
        if !ok {
            proof {
                assert(deflatten_pairs(Seq::empty(), pairs.take(j + 1)) is None);
                lemma_deflatten_pairs_none(pairs, j + 1);
            }
            return None;
        }
        j = j + 1;
    }
    assert(pairs.take(map@.len() as int) =~= pairs);
    Some(result)
}

/// Once rebuilding fails, it fails for every longer prefix.
proof fn lemma_deflatten_pairs_none(pairs: Seq<(Seq<char>, JsonView)>, j: int)
    requires
        0 <= j <= pairs.len(),
        deflatten_pairs(Seq::empty(), pairs.take(j)) is None,
    ensures
        deflatten_pairs(Seq::empty(), pairs) is None,
    decreases pairs.len() - j,
{
    if j < pairs.len() {
        assert(pairs.take(j + 1).drop_last() =~= pairs.take(j));
        lemma_deflatten_pairs_none(pairs, j + 1);
    } else {
        assert(pairs.take(j) =~= pairs);
    }
}

/// Rebuilds the nesting of a flattened document, or `None` when a key would
/// have to pass through a value that is not an object.
pub fn try_deflatten(v: JsonValue) -> (r: Option<JsonValue>)
    ensures
        r matches Some(d) ==> deflatten_spec(v@) == Some(d@),
        r is None ==> deflatten_spec(v@) is None,
{
    match &v {
        JsonValue::Object(map) => match deflatten_helper(map) {
            Some(m) => Some(JsonValue::Object(m)),
            None => None,
        },
        _ => Some(v),
    }
}

/// Rebuilds the nesting of a flattened document: each key is split at its
/// dots into a path of nested objects.
pub fn deflatten(v: JsonValue) -> (r: JsonValue)
    requires
        deflatten_spec(v@) is Some,
    ensures
        deflatten_spec(v@) == Some(r@),
{
    match try_deflatten(v) {
        Some(d) => d,
        None => JsonValue::Null,
    }
}
} // verus!
