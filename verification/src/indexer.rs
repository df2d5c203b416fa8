//! The field index of the records of one type.
//!
//! Records are flattened before they are indexed: a record is either a
//! plain value, or an object whose values are not objects. The index of a
//! plain value is a single leaf; the index of objects is a branch with one
//! leaf per field name. A leaf holds ordered keys of one kind (integers,
//! floats, booleans or strings), or, for arrays, just the set of record
//! numbers whose value there is an array.

use crate::collections::{index_set_insert, index_set_items, index_set_new, index_set_remove};
use crate::json::{view_pairs, lemma_view_pairs_len, JsonNumber, JsonValue, JsonView};
use crate::ordered::{float_order, leaf_rank, FloatKey, IndexKey, KeyRange, LeafKey, RangeView};
use crate::ordered_index::{
    all_in_range, bucket, buckets_add, buckets_remove, buckets_wf, first_by_value,
    first_in_range, lemma_set_insert, lemma_set_swap_remove, set_insert, set_swap_remove, OrderedIndex,
};
use indexmap::IndexSet;
use vstd::prelude::*;

verus! {

/// The field index of the records of one type.
pub enum ValueIndexer {
    FloatLeaf(OrderedIndex<FloatKey>),
    IntLeaf(OrderedIndex<i64>),
    BoolLeaf(OrderedIndex<bool>),
    StringLeaf(OrderedIndex<String>),
    VecLeaf(IndexSet<u64>),
    Branch(Vec<(String, ValueIndexer)>),
    Null,
}

impl Default for ValueIndexer {
    /// An index of nothing yet.
    fn default() -> (r: ValueIndexer)
        ensures
            r@ == IndexView::Null,
    {
        ValueIndexer::Null
    }
}

/// The model of a field index. A leaf carries the rank of its key kind
/// (0 integers, 1 floats, 2 booleans, 3 strings) and its ordered buckets.
pub enum IndexView {
    Leaf(int, Seq<(LeafKey, Seq<u64>)>),
    Vec(Seq<u64>),
    Branch(Seq<(Seq<char>, IndexView)>),
    Null,
}

pub open spec fn view_children(s: Seq<(String, ValueIndexer)>) -> Seq<(Seq<char>, IndexView)>
    decreases s,
{
    if s.len() == 0 {
        Seq::empty()
    } else {
        view_children(s.drop_last()).push((s.last().0@, view_index(s.last().1)))
    }
}

pub open spec fn view_index(n: ValueIndexer) -> IndexView
    decreases n,
{
    match n {
        ValueIndexer::FloatLeaf(oi) => IndexView::Leaf(1, oi@),
        ValueIndexer::IntLeaf(oi) => IndexView::Leaf(0, oi@),
        ValueIndexer::BoolLeaf(oi) => IndexView::Leaf(2, oi@),
        ValueIndexer::StringLeaf(oi) => IndexView::Leaf(3, oi@),
        ValueIndexer::VecLeaf(s) => IndexView::Vec(index_set_items(s)),
        ValueIndexer::Branch(ch) => IndexView::Branch(view_children(ch@)),
        ValueIndexer::Null => IndexView::Null,
    }
}

impl View for ValueIndexer {
    type V = IndexView;

    open spec fn view(&self) -> IndexView {
        view_index(*self)
    }
}

pub proof fn lemma_view_children(s: Seq<(String, ValueIndexer)>)
    ensures
        view_children(s).len() == s.len(),
        forall|i: int|
            0 <= i < s.len() ==> #[trigger] view_children(s)[i] == (s[i].0@, view_index(s[i].1)),
    decreases s.len(),
{
    if s.len() > 0 {
        lemma_view_children(s.drop_last());
    }
}

/// The key that a plain JSON value is indexed under, if it has one.
/// Integers above `i64::MAX` have none.
pub open spec fn json_leaf(v: JsonView) -> Option<LeafKey> {
    match v {
        JsonView::Bool(b) => Some(LeafKey::Bool(b)),
        JsonView::Number(JsonNumber::Float(bits)) => Some(LeafKey::Float(float_order(bits))),
        JsonView::Number(JsonNumber::PosInt(n)) => if n <= i64::MAX {
            Some(LeafKey::Int(n as int))
        } else {
            None
        },
        JsonView::Number(JsonNumber::NegInt(n)) => Some(LeafKey::Int(n as int)),
        JsonView::Str(s) => Some(LeafKey::Str(s)),
        _ => None,
    }
}

/// No key occurs twice.
pub open spec fn keys_distinct<V>(m: Seq<(Seq<char>, V)>) -> bool {
    forall|a: int, b: int| 0 <= a < b < m.len() ==> (#[trigger] m[a]).0 != (#[trigger] m[b]).0
}

/// The position of key `k`, if present.
pub open spec fn key_pos<V>(m: Seq<(Seq<char>, V)>, k: Seq<char>) -> Option<int> {
    if exists|p: int| 0 <= p < m.len() && (#[trigger] m[p]).0 == k {
        Some(choose|p: int| 0 <= p < m.len() && (#[trigger] m[p]).0 == k)
    } else {
        None
    }
}

/// A flattened record: a plain value, or an object with distinct keys whose
/// values are not objects.
pub open spec fn flat(v: JsonView) -> bool {
    match v {
        JsonView::Object(m) => keys_distinct(m) && forall|j: int|
            0 <= j < m.len() ==> !((#[trigger] m[j]).1 is Object),
        _ => true,
    }
}

/// A leaf (or an empty node) whose buckets are well formed and all of its kind.
pub open spec fn leafish_wf(n: IndexView) -> bool {
    match n {
        IndexView::Leaf(kd, s) => buckets_wf(s) && forall|q: int|
            0 <= q < s.len() ==> leaf_rank((#[trigger] s[q]).0) == kd,
        IndexView::Vec(s) => s.no_duplicates(),
        IndexView::Null => true,
        IndexView::Branch(_) => false,
    }
}

/// A well-formed index: a leaf, or a branch of leaves with distinct names.
pub open spec fn node_wf(n: IndexView) -> bool {
    match n {
        IndexView::Branch(ch) => keys_distinct(ch) && forall|q: int|
            0 <= q < ch.len() ==> leafish_wf((#[trigger] ch[q]).1),
        _ => leafish_wf(n),
    }
}

pub open spec fn node_children(n: IndexView) -> Seq<(Seq<char>, IndexView)> {
    match n {
        IndexView::Branch(ch) => ch,
        _ => Seq::empty(),
    }
}

/// The child named `k`, or an empty node.
pub open spec fn child_or_null(ch: Seq<(Seq<char>, IndexView)>, k: Seq<char>) -> IndexView {
    match key_pos(ch, k) {
        Some(p) => ch[p].1,
        None => IndexView::Null,
    }
}

/// Whether a plain value can be recorded at this leaf: its kind matches.
pub open spec fn leaf_add_ok(n: IndexView, v: JsonView) -> bool {
    match v {
        JsonView::Null => true,
        JsonView::Array(_) => n is Null || n is Vec,
        JsonView::Object(_) => false,
        _ => match json_leaf(v) {
            Some(k) => n is Null || (n matches IndexView::Leaf(kd, _) && kd == leaf_rank(k)),
            None => false,
        },
    }
}

/// The leaf after recording plain value `v` of record `i`.
pub open spec fn leaf_add(n: IndexView, v: JsonView, i: u64) -> IndexView {
    match v {
        JsonView::Null => n,
        JsonView::Array(_) => match n {
            IndexView::Vec(s) => IndexView::Vec(set_insert(s, i)),
            _ => IndexView::Vec(seq![i]),
        },
        _ => {
            let k = json_leaf(v).unwrap();
            match n {
                IndexView::Leaf(kd, s) => IndexView::Leaf(kd, buckets_add(s, k, i)),
                _ => IndexView::Leaf(leaf_rank(k), buckets_add(Seq::empty(), k, i)),
            }
        },
    }
}

/// The children after recording the fields `m` of record `i`, field by field.
pub open spec fn children_add(
    ch: Seq<(Seq<char>, IndexView)>,
    m: Seq<(Seq<char>, JsonView)>,
    i: u64,
) -> Seq<(Seq<char>, IndexView)>
    decreases m.len(),
{
    if m.len() == 0 {
        ch
    } else {
        let c = children_add(ch, m.drop_last(), i);
        let k = m.last().0;
        let val = m.last().1;
        match key_pos(c, k) {
            Some(p) => c.update(p, (c[p].0, leaf_add(c[p].1, val, i))),
            None => c.push((k, leaf_add(IndexView::Null, val, i))),
        }
    }
}

/// Whether record value `v` can be added: every leaf it reaches has its kind.
pub open spec fn add_ok(n: IndexView, v: JsonView) -> bool {
    match v {
        JsonView::Object(m) => (n is Null || n is Branch) && forall|j: int|
            0 <= j < m.len() ==> leaf_add_ok(
                child_or_null(node_children(n), (#[trigger] m[j]).0),
                m[j].1,
            ),
        _ => leaf_add_ok(n, v),
    }
}

/// The index after adding record `i` with (flattened) value `v`.
pub open spec fn node_add(n: IndexView, v: JsonView, i: u64) -> IndexView {
    match v {
        JsonView::Object(m) => IndexView::Branch(children_add(node_children(n), m, i)),
        _ => leaf_add(n, v, i),
    }
}

/// How a key type is held in the index.
pub trait LeafType: IndexKey {
    /// The rank of this kind of key.
    spec fn kind() -> int;

    proof fn lemma_kind(k: &Self)
        ensures
            leaf_rank(k.leaf()) == Self::kind(),
    ;

    /// The ordered index of this kind held by `node`, if any.
    fn select(node: &ValueIndexer) -> (r: Option<&OrderedIndex<Self>>)
        ensures
            r matches Some(oi) ==> node@ == IndexView::Leaf(Self::kind(), oi@),
            r is None ==> !(node@ matches IndexView::Leaf(kd, _) && kd == Self::kind()),
    ;

    /// Takes the ordered index of this kind out of `node`, if it is one.
    fn unwrap_index(node: ValueIndexer) -> (r: Option<OrderedIndex<Self>>)
        ensures
            r matches Some(oi) ==> node@ == IndexView::Leaf(Self::kind(), oi@),
            r is None ==> !(node@ matches IndexView::Leaf(kd, _) && kd == Self::kind()),
    ;

    /// The node holding ordered index `oi`.
    fn wrap_index(oi: OrderedIndex<Self>) -> (r: ValueIndexer)
        ensures
            r@ == IndexView::Leaf(Self::kind(), oi@),
    ;
}

impl LeafType for i64 {
    open spec fn kind() -> int {
        0
    }

    proof fn lemma_kind(k: &i64) {
    }

    fn select(node: &ValueIndexer) -> (r: Option<&OrderedIndex<i64>>) {
        match node {
            ValueIndexer::IntLeaf(oi) => Some(oi),
            _ => None,
        }
    }

    fn unwrap_index(node: ValueIndexer) -> (r: Option<OrderedIndex<i64>>) {
        match node {
            ValueIndexer::IntLeaf(oi) => Some(oi),
            _ => None,
        }
    }

    fn wrap_index(oi: OrderedIndex<i64>) -> (r: ValueIndexer) {
        ValueIndexer::IntLeaf(oi)
    }
}

impl LeafType for FloatKey {
    open spec fn kind() -> int {
        1
    }

    proof fn lemma_kind(k: &FloatKey) {
    }

    fn select(node: &ValueIndexer) -> (r: Option<&OrderedIndex<FloatKey>>) {
        match node {
            ValueIndexer::FloatLeaf(oi) => Some(oi),
            _ => None,
        }
    }

    fn unwrap_index(node: ValueIndexer) -> (r: Option<OrderedIndex<FloatKey>>) {
        match node {
            ValueIndexer::FloatLeaf(oi) => Some(oi),
            _ => None,
        }
    }

    fn wrap_index(oi: OrderedIndex<FloatKey>) -> (r: ValueIndexer) {
        ValueIndexer::FloatLeaf(oi)
    }
}

impl LeafType for bool {
    open spec fn kind() -> int {
        2
    }

    proof fn lemma_kind(k: &bool) {
    }

    fn select(node: &ValueIndexer) -> (r: Option<&OrderedIndex<bool>>) {
        match node {
            ValueIndexer::BoolLeaf(oi) => Some(oi),
            _ => None,
        }
    }

    fn unwrap_index(node: ValueIndexer) -> (r: Option<OrderedIndex<bool>>) {
        match node {
            ValueIndexer::BoolLeaf(oi) => Some(oi),
            _ => None,
        }
    }

    fn wrap_index(oi: OrderedIndex<bool>) -> (r: ValueIndexer) {
        ValueIndexer::BoolLeaf(oi)
    }
}

impl LeafType for String {
    open spec fn kind() -> int {
        3
    }

    proof fn lemma_kind(k: &String) {
    }

    fn select(node: &ValueIndexer) -> (r: Option<&OrderedIndex<String>>) {
        match node {
            ValueIndexer::StringLeaf(oi) => Some(oi),
            _ => None,
        }
    }

    fn unwrap_index(node: ValueIndexer) -> (r: Option<OrderedIndex<String>>) {
        match node {
            ValueIndexer::StringLeaf(oi) => Some(oi),
            _ => None,
        }
    }

    fn wrap_index(oi: OrderedIndex<String>) -> (r: ValueIndexer) {
        ValueIndexer::StringLeaf(oi)
    }
}


/// Recording a key of the leaf's kind keeps every key of that kind.
pub proof fn lemma_buckets_add_kind(s: Seq<(LeafKey, Seq<u64>)>, k: LeafKey, i: u64, kd: int)
    requires
        buckets_wf(s),
        forall|q: int| 0 <= q < s.len() ==> leaf_rank((#[trigger] s[q]).0) == kd,
        leaf_rank(k) == kd,
    ensures
        forall|q: int|
            0 <= q < buckets_add(s, k, i).len() ==> leaf_rank(
                (#[trigger] buckets_add(s, k, i)[q]).0,
            ) == kd,
{
    let r = buckets_add(s, k, i);
    let p = crate::ordered_index::lower_pos(s, k);
    crate::ordered_index::lemma_lower_pos(s, k);
    assert forall|q: int| 0 <= q < r.len() implies leaf_rank((#[trigger] r[q]).0) == kd by {
        if p < s.len() && s[p].0 == k {
            assert(r[q].0 == s[q].0);
        } else if q < p {
            assert(r[q] == s[q]);
        } else if q > p {
            assert(r[q] == s[q - 1]);
        }
    }
}

/// With distinct keys, `key_pos` finds the one position that holds the key.
pub proof fn lemma_key_pos<V>(m: Seq<(Seq<char>, V)>, k: Seq<char>)
    requires
        keys_distinct(m),
    ensures
        key_pos(m, k) matches Some(p) ==> 0 <= p < m.len() && m[p].0 == k,
        key_pos(m, k) is None ==> forall|q: int| 0 <= q < m.len() ==> (#[trigger] m[q]).0 != k,
        forall|q: int| 0 <= q < m.len() && (#[trigger] m[q]).0 == k ==> key_pos(m, k) == Some(q),
{
}

/// The position of the child named `key`, if any.
fn find_child(ch: &Vec<(String, ValueIndexer)>, key: &String) -> (r: Option<usize>)
    requires
        keys_distinct(view_children(ch@)),
    ensures
        r matches Some(p) ==> key_pos(view_children(ch@), key@) == Some(p as int) && p
            < ch@.len(),
        r is None ==> key_pos(view_children(ch@), key@) is None,
{
    proof {
        lemma_view_children(ch@);
        lemma_key_pos(view_children(ch@), key@);
    }
    let mut i: usize = 0;
    while i < ch.len()
        invariant
            i <= ch@.len(),
            view_children(ch@).len() == ch@.len(),
            keys_distinct(view_children(ch@)),
            forall|q: int| 0 <= q < i ==> (#[trigger] view_children(ch@)[q]).0 != key@,
            forall|q: int|
                0 <= q < ch@.len() ==> #[trigger] view_children(ch@)[q] == (
                    ch@[q].0@,
                    view_index(ch@[q].1),
                ),
        decreases ch@.len() - i,
    {
        if ch[i].0 == *key {
            assert(view_children(ch@)[i as int].0 == key@);
            proof {
                lemma_key_pos(view_children(ch@), key@);
            }
            return Some(i);
        }
        i = i + 1;
    }
    None
}

impl ValueIndexer {
    /// An index of no records.
    pub fn new() -> (r: ValueIndexer)
        ensures
            r@ == IndexView::Null,
    {
        ValueIndexer::default()
    }

    /// Records that record `index` holds `key` at this leaf.
    fn add_index<K: LeafType>(&mut self, key: K, index: u64)
        requires
            leafish_wf(old(self)@),
            old(self)@ is Null || (old(self)@ matches IndexView::Leaf(kd, _) && kd == K::kind()),
        ensures
            leafish_wf(final(self)@),
            final(self)@ == (match old(self)@ {
                IndexView::Leaf(kd, s) => IndexView::Leaf(kd, buckets_add(s, key.leaf(), index)),
                _ => IndexView::Leaf(K::kind(), buckets_add(Seq::empty(), key.leaf(), index)),
            }),
    {
        let mut node = ValueIndexer::Null;
        std::mem::swap(self, &mut node);
        let mut oi = match K::unwrap_index(node) {
            Some(oi) => oi,
            None => OrderedIndex::new(),
        };
        let ghost k = key.leaf();
        let ghost s0 = oi@;
        proof {
            K::lemma_kind(&key);
            crate::ordered_index::lemma_buckets_add_wf(s0, k, index);
            lemma_buckets_add_kind(s0, k, index, K::kind());
        }
        oi.add(key, index);
        *self = K::wrap_index(oi);
    }

    /// Records a number of record `index` at this leaf.
    fn add_value_by_num(&mut self, num: JsonNumber, index: u64)
        requires
            leafish_wf(old(self)@),
            leaf_add_ok(old(self)@, JsonView::Number(num)),
        ensures
            leafish_wf(final(self)@),
            final(self)@ == leaf_add(old(self)@, JsonView::Number(num), index),
    {
        if num.is_f64() {
            match num {
                JsonNumber::Float(bits) => self.add_index(FloatKey { bits }, index),
                _ => {},
            }
        } else {
            match num.as_i64() {
                Some(i) => self.add_index(i, index),
                None => {},
            }
        }
    }

    /// Records that record `index` holds an array at this leaf.
    fn add_value_by_array(&mut self, index: u64)
        requires
            leafish_wf(old(self)@),
            old(self)@ is Null || old(self)@ is Vec,
        ensures
            leafish_wf(final(self)@),
            final(self)@ == leaf_add(old(self)@, JsonView::Array(Seq::empty()), index),
    {
        if let ValueIndexer::Null = self {
            *self = ValueIndexer::VecLeaf(index_set_new());
        }
        match self {
            ValueIndexer::VecLeaf(set) => {
                proof {
                    lemma_set_insert(index_set_items(*set), index);
                }
                index_set_insert(set, index);
            },
            _ => {},
        }
        proof {
            if old(self)@ is Null {
                assert(set_insert(Seq::<u64>::empty(), index) =~= seq![index]);
            }
        }
    }

    /// Records plain value `obj` of record `index` at this leaf.
    fn add_leaf(&mut self, obj: &JsonValue, index: u64)
        requires
            node_wf(old(self)@),
            leaf_add_ok(old(self)@, obj@),
        ensures
            node_wf(final(self)@),
            leafish_wf(old(self)@) ==> leafish_wf(final(self)@),
            final(self)@ == leaf_add(old(self)@, obj@, index),
    {
        match obj {
            JsonValue::Number(num) => self.add_value_by_num(*num, index),
            JsonValue::Bool(b) => self.add_index(*b, index),
            JsonValue::String(st) => self.add_index(st.clone(), index),
            JsonValue::Array(_) => self.add_value_by_array(index),
            _ => {},
        }
    }
}

/// Recording one field keeps the other children as they were.
proof fn lemma_children_step(
    c: Seq<(Seq<char>, IndexView)>,
    k: Seq<char>,
    newc: Seq<(Seq<char>, IndexView)>,
    child: IndexView,
)
    requires
        keys_distinct(c),
        forall|q: int| 0 <= q < c.len() ==> leafish_wf((#[trigger] c[q]).1),
        leafish_wf(child),
        newc == (match key_pos(c, k) {
            Some(p) => c.update(p, (c[p].0, child)),
            None => c.push((k, child)),
        }),
    ensures
        keys_distinct(newc),
        forall|q: int| 0 <= q < newc.len() ==> leafish_wf((#[trigger] newc[q]).1),
        forall|k2: Seq<char>| k2 != k ==> child_or_null(newc, k2) == child_or_null(c, k2),
        child_or_null(newc, k) == child,
        key_pos(newc, k) is Some,
{
    lemma_key_pos(c, k);
    match key_pos(c, k) {
        Some(p) => {
            assert(keys_distinct(newc)) by {
                assert forall|a: int, b: int| 0 <= a < b < newc.len() implies (
                #[trigger] newc[a]).0 != (#[trigger] newc[b]).0 by {
                    assert(newc[a].0 == c[a].0 && newc[b].0 == c[b].0);
                }
            }
            assert forall|q: int| 0 <= q < newc.len() implies leafish_wf((#[trigger] newc[q]).1) by {
                if q != p {
                    assert(newc[q] == c[q]);
                }
            }
            lemma_key_pos(newc, k);
            assert(newc[p].0 == k);
            assert forall|k2: Seq<char>| k2 != k implies child_or_null(newc, k2) == child_or_null(
                c,
                k2,
            ) by {
                lemma_key_pos(c, k2);
                lemma_key_pos(newc, k2);
                if let Some(q) = key_pos(c, k2) {
                    assert(newc[q].0 == k2);
                }
                if let Some(q) = key_pos(newc, k2) {
                    assert(q != p);
                    assert(c[q].0 == k2);
                }
            }
        },
        None => {
            assert(keys_distinct(newc)) by {
                assert forall|a: int, b: int| 0 <= a < b < newc.len() implies (
                #[trigger] newc[a]).0 != (#[trigger] newc[b]).0 by {
                    if b == c.len() {
                        assert(newc[a] == c[a]);
                    } else {
                        assert(newc[a] == c[a] && newc[b] == c[b]);
                    }
                }
            }
            assert forall|q: int| 0 <= q < newc.len() implies leafish_wf((#[trigger] newc[q]).1) by {
                if q < c.len() {
                    assert(newc[q] == c[q]);
                }
            }
            lemma_key_pos(newc, k);
            assert(newc[c.len() as int].0 == k);
            assert forall|k2: Seq<char>| k2 != k implies child_or_null(newc, k2) == child_or_null(
                c,
                k2,
            ) by {
                lemma_key_pos(c, k2);
                lemma_key_pos(newc, k2);
                if let Some(q) = key_pos(c, k2) {
                    assert(newc[q] == c[q]);
                }
                if let Some(q) = key_pos(newc, k2) {
                    assert(q != c.len());
                    assert(newc[q] == c[q]);
                }
            }
        },
    }
}

impl ValueIndexer {
    /// Records the fields of object `map` of record `index`.
    fn add_value_by_object(&mut self, map: &Vec<(String, JsonValue)>, index: u64)
        requires
            node_wf(old(self)@),
            old(self)@ is Null || old(self)@ is Branch,
            flat(JsonView::Object(view_pairs(map@))),
            forall|j: int|
                0 <= j < view_pairs(map@).len() ==> leaf_add_ok(
                    child_or_null(node_children(old(self)@), (#[trigger] view_pairs(map@)[j]).0),
                    view_pairs(map@)[j].1,
                ),
        ensures
            node_wf(final(self)@),
            final(self)@ == IndexView::Branch(
                children_add(node_children(old(self)@), view_pairs(map@), index),
            ),
    {
        let ghost m = view_pairs(map@);
        let ghost c0 = node_children(old(self)@);
        proof {
            lemma_view_pairs_len(map@);
        }
        let mut node = ValueIndexer::Null;
        std::mem::swap(self, &mut node);
        let mut ch: Vec<(String, ValueIndexer)> = match node {
            ValueIndexer::Branch(c) => c,
            _ => Vec::new(),
        };
        assert(view_children(ch@) == c0) by {
            if !(old(self)@ is Branch) {
                assert(view_children(ch@) =~= Seq::<(Seq<char>, IndexView)>::empty());
            }
        }
        let mut j: usize = 0;
        while j < map.len()
            invariant
                j <= map@.len(),
                m == view_pairs(map@),
                m.len() == map@.len(),
                forall|q: int| 0 <= q < map@.len() ==> #[trigger] m[q] == (map@[q].0@, map@[q].1@),
                flat(JsonView::Object(m)),
                forall|q: int|
                    0 <= q < m.len() ==> leaf_add_ok(
                        child_or_null(c0, (#[trigger] m[q]).0),
                        m[q].1,
                    ),
                view_children(ch@) == children_add(c0, m.take(j as int), index),
                keys_distinct(view_children(ch@)),
                forall|q: int|
                    0 <= q < view_children(ch@).len() ==> leafish_wf(
                        (#[trigger] view_children(ch@)[q]).1,
                    ),
                forall|q: int|
                    j <= q < m.len() ==> child_or_null(view_children(ch@), (#[trigger] m[q]).0)
                        == child_or_null(c0, m[q].0),
            decreases map@.len() - j,
        {
            let ghost c = view_children(ch@);
            let key = &map[j].0;
            let val = &map[j].1;
            assert(m[j as int] == (key@, val@));
            let pos = find_child(&ch, key);
            proof {
                lemma_view_children(ch@);
                lemma_key_pos(c, key@);
            }
            let p = match pos {
                Some(p) => p,
                None => {
                    ch.push((key.clone(), ValueIndexer::Null));
                    proof {
                        lemma_view_children(ch@);
                    }
                    ch.len() - 1
                },
            };
            assert(view_index(ch@[p as int].1) == child_or_null(c, key@));
            let ghost before = ch@;
            ch[p].1.add_leaf(val, index);
            proof {
                let child = leaf_add(child_or_null(c, key@), val@, index);
                lemma_view_children(ch@);
                lemma_view_children(before);
                let newc = match key_pos(c, key@) {
                    Some(pp) => c.update(pp, (c[pp].0, child)),
                    None => c.push((key@, child)),
                };
                assert(view_children(ch@) =~= newc);
                assert(m.take(j + 1).drop_last() =~= m.take(j as int));
                assert(m.take(j + 1).last() == m[j as int]);
                assert(children_add(c0, m.take(j + 1), index) == newc);
                lemma_children_step(c, key@, newc, child);
                assert forall|q: int| j + 1 <= q < m.len() implies child_or_null(
                    view_children(ch@),
                    (#[trigger] m[q]).0,
                ) == child_or_null(c0, m[q].0) by {
                    assert(m[q].0 != m[j as int].0);
                }
            }
            j = j + 1;
        }
        proof {
            assert(m.take(map@.len() as int) =~= m);
        }
        *self = ValueIndexer::Branch(ch);
    }

    /// Adds record `index` with flattened value `obj` to the index.
    pub fn add(&mut self, obj: JsonValue, index: u64)
        requires
            node_wf(old(self)@),
            flat(obj@),
            add_ok(old(self)@, obj@),
        ensures
            node_wf(final(self)@),
            final(self)@ == node_add(old(self)@, obj@, index),
    {
        match &obj {
            JsonValue::Object(map) => self.add_value_by_object(map, index),
            _ => self.add_leaf(&obj, index),
        }
    }
}

/// Whether plain value `v` can be taken out of this leaf: its kind matches.
pub open spec fn leaf_remove_ok(n: IndexView, v: JsonView) -> bool {
    match v {
        JsonView::Null => true,
        JsonView::Array(_) => n is Vec,
        JsonView::Object(_) => false,
        _ => match json_leaf(v) {
            Some(k) => n matches IndexView::Leaf(kd, _) && kd == leaf_rank(k),
            None => false,
        },
    }
}

/// The leaf after taking out plain value `v` of record `i`.
pub open spec fn leaf_remove(n: IndexView, i: u64, v: JsonView) -> IndexView {
    match v {
        JsonView::Null => n,
        JsonView::Array(_) => match n {
            IndexView::Vec(s) => IndexView::Vec(set_swap_remove(s, i)),
            _ => n,
        },
        _ => match n {
            IndexView::Leaf(kd, s) => IndexView::Leaf(kd, buckets_remove(s, json_leaf(v).unwrap(), i)),
            _ => n,
        },
    }
}

/// The children after taking out the fields `m` of record `i`, field by field.
/// Fields without a child are skipped.
pub open spec fn children_remove(
    ch: Seq<(Seq<char>, IndexView)>,
    m: Seq<(Seq<char>, JsonView)>,
    i: u64,
) -> Seq<(Seq<char>, IndexView)>
    decreases m.len(),
{
    if m.len() == 0 {
        ch
    } else {
        let c = children_remove(ch, m.drop_last(), i);
        let k = m.last().0;
        let val = m.last().1;
        match key_pos(c, k) {
            Some(p) => c.update(p, (c[p].0, leaf_remove(c[p].1, i, val))),
            None => c,
        }
    }
}

/// Whether record value `v` can be taken out: every leaf it reaches that
/// exists has its kind.
pub open spec fn remove_ok(n: IndexView, v: JsonView) -> bool {
    match v {
        JsonView::Object(m) => (n is Null || n is Branch) && forall|j: int|
            0 <= j < m.len() && key_pos(node_children(n), (#[trigger] m[j]).0) is Some
                ==> leaf_remove_ok(child_or_null(node_children(n), m[j].0), m[j].1),
        _ => leaf_remove_ok(n, v),
    }
}

/// The index after taking out record `i` with (flattened) value `v`.
pub open spec fn node_remove(n: IndexView, i: u64, v: JsonView) -> IndexView {
    match v {
        JsonView::Object(m) => IndexView::Branch(children_remove(node_children(n), m, i)),
        _ => leaf_remove(n, i, v),
    }
}

/// Taking a key out keeps the keys of the leaf.
pub proof fn lemma_buckets_remove_kind(s: Seq<(LeafKey, Seq<u64>)>, k: LeafKey, i: u64, kd: int)
    requires
        buckets_wf(s),
        forall|q: int| 0 <= q < s.len() ==> leaf_rank((#[trigger] s[q]).0) == kd,
    ensures
        forall|q: int|
            0 <= q < buckets_remove(s, k, i).len() ==> leaf_rank(
                (#[trigger] buckets_remove(s, k, i)[q]).0,
            ) == kd,
{
    let r = buckets_remove(s, k, i);
    crate::ordered_index::lemma_find_key(s, k);
    assert forall|q: int| 0 <= q < r.len() implies leaf_rank((#[trigger] r[q]).0) == kd by {
        assert(r[q].0 == s[q].0);
    }
}

impl ValueIndexer {
    /// Forgets that record `index` holds `key` at this leaf.
    fn remove_index<K: LeafType>(&mut self, key: &K, index: u64)
        requires
            leafish_wf(old(self)@),
            old(self)@ matches IndexView::Leaf(kd, _) && kd == K::kind(),
        ensures
            leafish_wf(final(self)@),
            final(self)@ == (match old(self)@ {
                IndexView::Leaf(kd, s) => IndexView::Leaf(kd, buckets_remove(s, key.leaf(), index)),
                _ => old(self)@,
            }),
    {
        let mut node = ValueIndexer::Null;
        std::mem::swap(self, &mut node);
        let mut oi = match K::unwrap_index(node) {
            Some(oi) => oi,
            None => OrderedIndex::new(),
        };
        proof {
            crate::ordered_index::lemma_buckets_remove_wf(oi@, key.leaf(), index);
            lemma_buckets_remove_kind(oi@, key.leaf(), index, K::kind());
        }
        oi.remove(key, index);
        *self = K::wrap_index(oi);
    }

    /// Forgets a number of record `index` at this leaf.
    fn remove_by_num(&mut self, num: &JsonNumber, index: u64)
        requires
            leafish_wf(old(self)@),
            leaf_remove_ok(old(self)@, JsonView::Number(*num)),
        ensures
            leafish_wf(final(self)@),
            final(self)@ == leaf_remove(old(self)@, index, JsonView::Number(*num)),
    {
        if num.is_f64() {
            match num {
                JsonNumber::Float(bits) => self.remove_index(&FloatKey { bits: *bits }, index),
                _ => {},
            }
        } else {
            match num.as_i64() {
                Some(i) => self.remove_index(&i, index),
                None => {},
            }
        }
    }

    /// Forgets that record `index` holds an array at this leaf.
    fn remove_by_array(&mut self, index: u64)
        requires
            leafish_wf(old(self)@),
            old(self)@ is Vec,
        ensures
            leafish_wf(final(self)@),
            final(self)@ == leaf_remove(old(self)@, index, JsonView::Array(Seq::empty())),
    {
        match self {
            ValueIndexer::VecLeaf(set) => {
                let ghost b = index_set_items(*set);
                proof {
                    lemma_set_swap_remove(b, index);
                }
                index_set_remove(set, &index);
                proof {
                    if b.contains(index) {
                        let q = choose|q: int|
                            0 <= q < b.len() && b[q] == index && index_set_items(*set) == b.update(
                                q,
                                b.last(),
                            ).drop_last();
                        assert(b[b.index_of(index)] == index);
                        assert(q == b.index_of(index));
                    }
                }
            },
            _ => {},
        }
    }

    /// Forgets plain value `value` of record `index` at this leaf.
    fn remove_leaf(&mut self, index: u64, value: &JsonValue)
        requires
            node_wf(old(self)@),
            leaf_remove_ok(old(self)@, value@),
        ensures
            node_wf(final(self)@),
            leafish_wf(old(self)@) ==> leafish_wf(final(self)@),
            final(self)@ == leaf_remove(old(self)@, index, value@),
    {
        match value {
            JsonValue::Number(num) => self.remove_by_num(num, index),
            JsonValue::Bool(b) => self.remove_index(b, index),
            JsonValue::String(st) => self.remove_index(st, index),
            JsonValue::Array(_) => self.remove_by_array(index),
            _ => {},
        }
    }

    /// Forgets the fields of object `map` of record `index`.
    fn remove_by_object(&mut self, map: &Vec<(String, JsonValue)>, index: u64)
        requires
            node_wf(old(self)@),
            remove_ok(old(self)@, JsonView::Object(view_pairs(map@))),
            flat(JsonView::Object(view_pairs(map@))),
        ensures
            node_wf(final(self)@),
            final(self)@ == node_remove(old(self)@, index, JsonView::Object(view_pairs(map@))),
    {
        let ghost m = view_pairs(map@);
        let ghost c0 = node_children(old(self)@);
        proof {
            lemma_view_pairs_len(map@);
        }
        if let ValueIndexer::Null = self {
            *self = ValueIndexer::Branch(Vec::new());
        }
        let mut node = ValueIndexer::Null;
        std::mem::swap(self, &mut node);
        let mut ch: Vec<(String, ValueIndexer)> = match node {
            ValueIndexer::Branch(c) => c,
            _ => Vec::new(),
        };
        assert(view_children(ch@) == c0) by {
            if !(old(self)@ is Branch) {
                assert(view_children(ch@) =~= Seq::<(Seq<char>, IndexView)>::empty());
            }
        }
        let mut j: usize = 0;
        while j < map.len()
            invariant
                j <= map@.len(),
                m == view_pairs(map@),
                m.len() == map@.len(),
                forall|q: int| 0 <= q < map@.len() ==> #[trigger] m[q] == (map@[q].0@, map@[q].1@),
                flat(JsonView::Object(m)),
                keys_distinct(c0),
                forall|q: int|
                    0 <= q < m.len() && key_pos(c0, (#[trigger] m[q]).0) is Some ==> leaf_remove_ok(
                        child_or_null(c0, m[q].0),
                        m[q].1,
                    ),
                view_children(ch@) == children_remove(c0, m.take(j as int), index),
                keys_distinct(view_children(ch@)),
                forall|k: Seq<char>|
                    (key_pos(view_children(ch@), k) is Some) == (key_pos(c0, k) is Some),
                forall|q: int|
                    0 <= q < view_children(ch@).len() ==> leafish_wf(
                        (#[trigger] view_children(ch@)[q]).1,
                    ),
                forall|q: int|
                    j <= q < m.len() ==> child_or_null(view_children(ch@), (#[trigger] m[q]).0)
                        == child_or_null(c0, m[q].0),
            decreases map@.len() - j,
        {
            let ghost c = view_children(ch@);
            let key = &map[j].0;
            let val = &map[j].1;
            assert(m[j as int] == (key@, val@));
            let pos = find_child(&ch, key);
            proof {
                lemma_view_children(ch@);
                lemma_key_pos(c, key@);
                assert(m.take(j + 1).drop_last() =~= m.take(j as int));
                assert(m.take(j + 1).last() == m[j as int]);
            }
            match pos {
                Some(p) => {
                    assert(view_index(ch@[p as int].1) == child_or_null(c, key@));
                    let ghost before = ch@;
                    ch[p].1.remove_leaf(index, val);
                    proof {
                        let child = leaf_remove(child_or_null(c, key@), index, val@);
                        lemma_view_children(ch@);
                        lemma_view_children(before);
                        let newc = c.update(p as int, (c[p as int].0, child));
                        assert(view_children(ch@) =~= newc);
                        assert(children_remove(c0, m.take(j + 1), index) == newc);
                        lemma_children_step(c, key@, newc, child);
                        assert forall|k: Seq<char>|
                            (key_pos(newc, k) is Some) == (key_pos(c, k) is Some) by {
                            lemma_key_pos(newc, k);
                            lemma_key_pos(c, k);
                            if let Some(q) = key_pos(c, k) {
                                assert(newc[q].0 == k);
                            }
                            if let Some(q) = key_pos(newc, k) {
                                assert(c[q].0 == k);
                            }
                        }
                        assert forall|q: int| j + 1 <= q < m.len() implies child_or_null(
                            view_children(ch@),
                            (#[trigger] m[q]).0,
                        ) == child_or_null(c0, m[q].0) by {
                            assert(m[q].0 != m[j as int].0);
                        }
                    }
                },
                None => {
                    proof {
                        assert(children_remove(c0, m.take(j + 1), index) == c);
                    }
                },
            }
            j = j + 1;
        }
        proof {
            assert(m.take(map@.len() as int) =~= m);
        }
        *self = ValueIndexer::Branch(ch);
    }

    /// Takes record `index` with flattened value `value` out of the index.
    pub fn remove(&mut self, index: u64, value: &JsonValue)
        requires
            node_wf(old(self)@),
            flat(value@),
            remove_ok(old(self)@, value@),
        ensures
            node_wf(final(self)@),
            final(self)@ == node_remove(old(self)@, index, value@),
    {
        match value {
            JsonValue::Object(map) => self.remove_by_object(map, index),
            _ => self.remove_leaf(index, value),
        }
    }
}

/// The leaf that a lookup of `field` reads: the child of that name under a
/// branch (an empty node when there is none), and otherwise the node
/// itself, whatever the field.
pub open spec fn select(n: IndexView, field: Seq<char>) -> IndexView {
    match n {
        IndexView::Branch(ch) => child_or_null(ch, field),
        _ => n,
    }
}

/// Whether a lookup of `field` with a key of kind `kind` is accepted: the
/// leaf read is empty or holds keys of that kind.
pub open spec fn lookup_ok(n: IndexView, field: Seq<char>, kind: int) -> bool {
    match select(n, field) {
        IndexView::Null => true,
        IndexView::Leaf(kd, _) => kd == kind,
        _ => false,
    }
}

/// The buckets that a lookup of `field` reads.
pub open spec fn selected_buckets(n: IndexView, field: Seq<char>) -> Seq<(LeafKey, Seq<u64>)> {
    match select(n, field) {
        IndexView::Leaf(_, s) => s,
        _ => Seq::empty(),
    }
}

/// The first record whose `field` holds `k`.
pub open spec fn index_first_by_value(n: IndexView, field: Seq<char>, k: LeafKey) -> Option<u64> {
    first_by_value(selected_buckets(n, field), k)
}

/// All records whose `field` holds `k`, in bucket order.
pub open spec fn index_all_by_value(n: IndexView, field: Seq<char>, k: LeafKey) -> Seq<u64> {
    bucket(selected_buckets(n, field), k)
}

/// The first record whose `field` lies in range `r`.
pub open spec fn index_first_by_range(n: IndexView, field: Seq<char>, r: RangeView) -> Option<u64> {
    first_in_range(selected_buckets(n, field), r)
}

/// All records whose `field` lies in range `r`, key by key.
pub open spec fn index_all_by_range(n: IndexView, field: Seq<char>, r: RangeView) -> Seq<u64> {
    all_in_range(selected_buckets(n, field), r)
}

impl ValueIndexer {
    /// The leaf that a lookup of `field` reads, if it is not empty.
    fn selected(&self, field: &str) -> (r: Option<&ValueIndexer>)
        requires
            node_wf(self@),
        ensures
            r matches Some(n) ==> n@ == select(self@, field@) && !(n@ is Branch) && !(n@ is Null),
            r is None ==> select(self@, field@) is Null,
    {
        match self {
            ValueIndexer::Null => None,
            ValueIndexer::Branch(ch) => {
                let key = field.to_owned();
                match find_child(ch, &key) {
                    Some(p) => {
                        proof {
                            lemma_view_children(ch@);
                            lemma_key_pos(view_children(ch@), field@);
                        }
                        let child = &ch[p].1;
                        assert(child@ == view_children(ch@)[p as int].1);
                        match child {
                            ValueIndexer::Null => None,
                            _ => Some(child),
                        }
                    },
                    None => None,
                }
            },
            _ => Some(self),
        }
    }

    /// The first record whose `field` holds `key`.
    pub fn first_index_by_value<K: LeafType>(&self, field: &str, key: &K) -> (r: Option<u64>)
        requires
            node_wf(self@),
            lookup_ok(self@, field@, K::kind()),
        ensures
            r == index_first_by_value(self@, field@, key.leaf()),
    {
        match self.selected(field) {
            Some(n) => match K::select(n) {
                Some(oi) => oi.first_by_value(key),
                None => None,
            },
            None => None,
        }
    }

    /// All records whose `field` holds `key`, in bucket order.
    pub fn all_indices_by_value<K: LeafType>(&self, field: &str, key: &K) -> (r: Vec<u64>)
        requires
            node_wf(self@),
            lookup_ok(self@, field@, K::kind()),
        ensures
            r@ == index_all_by_value(self@, field@, key.leaf()),
    {
        match self.selected(field) {
            Some(n) => match K::select(n) {
                Some(oi) => oi.all_by_value(key),
                None => Vec::new(),
            },
            None => Vec::new(),
        }
    }

    /// The first record whose `field` lies in `range`.
    pub fn first_index_by_range<K: LeafType>(&self, field: &str, range: &KeyRange<K>) -> (r:
        Option<u64>)
        requires
            node_wf(self@),
            lookup_ok(self@, field@, K::kind()),
        ensures
            r == index_first_by_range(self@, field@, range.view_range()),
    {
        match self.selected(field) {
            Some(n) => match K::select(n) {
                Some(oi) => oi.first_in_range(range),
                None => None,
            },
            None => None,
        }
    }

    /// All records whose `field` lies in `range`, key by key.
    pub fn all_indices_by_range<K: LeafType>(&self, field: &str, range: &KeyRange<K>) -> (r:
        Vec<u64>)
        requires
            node_wf(self@),
            lookup_ok(self@, field@, K::kind()),
        ensures
            r@ == index_all_by_range(self@, field@, range.view_range()),
    {
        match self.selected(field) {
            Some(n) => match K::select(n) {
                Some(oi) => oi.all_in_range(range),
                None => Vec::new(),
            },
            None => Vec::new(),
        }
    }
}

/// Lookup of records by the value of a field, for keys of type `T`.
pub trait ValueLookupIndexer<T: LeafType>: View<V = IndexView> {
    /// The first record whose `field` holds `key`.
    fn get_index_by_value(&self, field: &str, key: &T) -> (r: Option<u64>)
        requires
            node_wf(self@),
            lookup_ok(self@, field@, T::kind()),
        ensures
            r == index_first_by_value(self@, field@, key.leaf()),
    ;

    /// All records whose `field` holds `key`, in bucket order.
    fn get_all_indices_by_value(&self, field: &str, key: &T) -> (r: Vec<u64>)
        requires
            node_wf(self@),
            lookup_ok(self@, field@, T::kind()),
        ensures
            r@ == index_all_by_value(self@, field@, key.leaf()),
    ;
}

/// Lookup of records by a range of values of a field, for keys of type `T`.
pub trait RangeLookupIndexer<T: LeafType>: View<V = IndexView> {
    /// The first record whose `field` lies in `range`.
    fn get_index_by_range(&self, field: &str, range: &KeyRange<T>) -> (r: Option<u64>)
        requires
            node_wf(self@),
            lookup_ok(self@, field@, T::kind()),
        ensures
            r == index_first_by_range(self@, field@, range.view_range()),
    ;

    /// All records whose `field` lies in `range`, key by key.
    fn get_all_indices_by_range(&self, field: &str, range: &KeyRange<T>) -> (r: Vec<u64>)
        requires
            node_wf(self@),
            lookup_ok(self@, field@, T::kind()),
        ensures
            r@ == index_all_by_range(self@, field@, range.view_range()),
    ;
}

impl ValueLookupIndexer<i64> for ValueIndexer {
    fn get_index_by_value(&self, field: &str, key: &i64) -> (r: Option<u64>) {
        self.first_index_by_value(field, key)
    }

    fn get_all_indices_by_value(&self, field: &str, key: &i64) -> (r: Vec<u64>) {
        self.all_indices_by_value(field, key)
    }
}

impl ValueLookupIndexer<String> for ValueIndexer {
    fn get_index_by_value(&self, field: &str, key: &String) -> (r: Option<u64>) {
        self.first_index_by_value(field, key)
    }

    fn get_all_indices_by_value(&self, field: &str, key: &String) -> (r: Vec<u64>) {
        self.all_indices_by_value(field, key)
    }
}

impl ValueLookupIndexer<bool> for ValueIndexer {
    fn get_index_by_value(&self, field: &str, key: &bool) -> (r: Option<u64>) {
        self.first_index_by_value(field, key)
    }

    fn get_all_indices_by_value(&self, field: &str, key: &bool) -> (r: Vec<u64>) {
        self.all_indices_by_value(field, key)
    }
}

impl ValueLookupIndexer<FloatKey> for ValueIndexer {
    fn get_index_by_value(&self, field: &str, key: &FloatKey) -> (r: Option<u64>) {
        self.first_index_by_value(field, key)
    }

    fn get_all_indices_by_value(&self, field: &str, key: &FloatKey) -> (r: Vec<u64>) {
        self.all_indices_by_value(field, key)
    }
}

impl RangeLookupIndexer<i64> for ValueIndexer {
    fn get_index_by_range(&self, field: &str, range: &KeyRange<i64>) -> (r: Option<u64>) {
        self.first_index_by_range(field, range)
    }

    fn get_all_indices_by_range(&self, field: &str, range: &KeyRange<i64>) -> (r: Vec<u64>) {
        self.all_indices_by_range(field, range)
    }
}

impl RangeLookupIndexer<String> for ValueIndexer {
    fn get_index_by_range(&self, field: &str, range: &KeyRange<String>) -> (r: Option<u64>) {
        self.first_index_by_range(field, range)
    }

    fn get_all_indices_by_range(&self, field: &str, range: &KeyRange<String>) -> (r: Vec<u64>) {
        self.all_indices_by_range(field, range)
    }
}

impl RangeLookupIndexer<FloatKey> for ValueIndexer {
    fn get_index_by_range(&self, field: &str, range: &KeyRange<FloatKey>) -> (r: Option<u64>) {
        self.first_index_by_range(field, range)
    }

    fn get_all_indices_by_range(&self, field: &str, range: &KeyRange<FloatKey>) -> (r: Vec<u64>) {
        self.all_indices_by_range(field, range)
    }
}

impl ValueIndexer {
    /// Whether this leaf takes plain value `v` without a kind clash.
    fn leaf_accepts(&self, v: &JsonValue) -> (r: bool)
        ensures
            r == leaf_add_ok(self@, v@),
    {
        match v {
            JsonValue::Null => true,
            JsonValue::Array(_) => match self {
                ValueIndexer::Null => true,
                ValueIndexer::VecLeaf(_) => true,
                _ => false,
            },
            JsonValue::Object(_) => false,
            JsonValue::Number(num) => {
                let kind: u8 = if num.is_f64() {
                    1
                } else {
                    match num.as_i64() {
                        Some(_) => 0,
                        None => {
                            return false;
                        },
                    }
                };
                match self {
                    ValueIndexer::Null => true,
                    ValueIndexer::IntLeaf(_) => kind == 0,
                    ValueIndexer::FloatLeaf(_) => kind == 1,
                    _ => false,
                }
            },
            JsonValue::Bool(_) => match self {
                ValueIndexer::Null => true,
                ValueIndexer::BoolLeaf(_) => true,
                _ => false,
            },
            JsonValue::String(_) => match self {
                ValueIndexer::Null => true,
                ValueIndexer::StringLeaf(_) => true,
                _ => false,
            },
        }
    }

    /// Whether flattened record value `v` can be added without a kind clash.
    pub fn can_add(&self, v: &JsonValue) -> (r: bool)
        requires
            node_wf(self@),
            flat(v@),
        ensures
            r == add_ok(self@, v@),
    {
        match v {
            JsonValue::Object(map) => {
                let ghost m = view_pairs(map@);
                proof {
                    lemma_view_pairs_len(map@);
                }
                let empty: Vec<(String, ValueIndexer)> = Vec::new();
                let ch: &Vec<(String, ValueIndexer)> = match self {
                    ValueIndexer::Null => &empty,
                    ValueIndexer::Branch(c) => c,
                    _ => {
                        return false;
                    },
                };
                assert(view_children(ch@) == node_children(self@)) by {
                    if self@ is Null {
                        assert(view_children(ch@) =~= Seq::<(Seq<char>, IndexView)>::empty());
                    }
                }
                let mut j: usize = 0;
                while j < map.len()
                    invariant
                        j <= map@.len(),
                        m == view_pairs(map@),
                        m.len() == map@.len(),
                        forall|q: int| 0 <= q < map@.len() ==> #[trigger] m[q] == (map@[q].0@, map@[q].1@),
                        view_children(ch@) == node_children(self@),
                        keys_distinct(view_children(ch@)),
                        *v == JsonValue::Object(*map),
                        self@ is Null || self@ is Branch,
                        forall|q: int| 0 <= q < j ==> leaf_add_ok(child_or_null(node_children(self@), (#[trigger] m[q]).0), m[q].1),
                    decreases map@.len() - j,
                {
                    let ok = match find_child(ch, &map[j].0) {
                        Some(p) => {
                            proof {
                                lemma_view_children(ch@);
                            }
                            assert(ch@[p as int].1@ == child_or_null(node_children(self@), m[j as int].0));
                            ch[p].1.leaf_accepts(&map[j].1)
                        },
                        None => {
                            let null = ValueIndexer::Null;
                            null.leaf_accepts(&map[j].1)
                        },
                    };
                    if !ok {
                        proof {
                            lemma_key_pos(view_children(ch@), m[j as int].0);
                            assert(!leaf_add_ok(child_or_null(node_children(self@), m[j as int].0), m[j as int].1));
                            assert(v@ == JsonView::Object(m));
                            assert(0 <= j < m.len());
                            assert(!add_ok(self@, v@));
                        }
                        return false;
                    }
                    j = j + 1;
                }
                true
            },
            _ => self.leaf_accepts(v),
        }
    }

    /// Whether a lookup of `field` with keys of kind `K` is accepted.
    pub fn can_lookup<K: LeafType>(&self, field: &str) -> (r: bool)
        requires
            node_wf(self@),
        ensures
            r == lookup_ok(self@, field@, K::kind()),
    {
        match self.selected(field) {
            None => true,
            Some(n) => {
                let sel = K::select(n);
                sel.is_some()
            },
        }
    }

    /// Whether the leaf a lookup of `field` reads holds keys.
    pub fn selects_leaf(&self, field: &str) -> (r: bool)
        requires
            node_wf(self@),
        ensures
            r == (select(self@, field@) is Leaf),
    {
        match self.selected(field) {
            None => false,
            Some(n) => match n {
                ValueIndexer::VecLeaf(_) => false,
                ValueIndexer::Null => false,
                ValueIndexer::Branch(_) => false,
                _ => true,
            },
        }
    }
}
} // verus!
