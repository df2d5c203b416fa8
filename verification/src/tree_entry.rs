//! A tree entry: the records of one type held in a tree that follows the
//! fields of the flattened documents. A plain document sits in one leaf; an
//! object is held once under every field, in the leaf of that field, in the
//! bucket of the key it holds there. Every document is stored with a number,
//! so that taking it out of one leaf can take it out of the others.

use crate::doc_buckets::{
    all_docs, copy_doc, docs_push, docs_retain, first_doc, get_all_prims_from_map,
    get_primitive_from_map, keys_increasing, pop_doc, bucket_retain, remove_primitive_from_map,
    view_buckets, view_docs, without_doc, docs_without, bucket_push, key_at, key_slot,
    lemma_key_slot, first_full_pos, lemma_first_full, docs_in_range, drain_range, first_full,
    first_full_in, get_all_prims_range, get_primitive_range, remove_all_prims_range,
    remove_primitive_range, lemma_first_full_in,
};
use crate::flat::{assoc_insert, find_first, first_pos};
use crate::flat_laws::dot_free;
use crate::shallow_flat::{
    collect, deflatten, flatten, lemma_first_dot, shallow_deflatten, shallow_fields, shallow_flatten,
    split_once, unflatten,
};
use crate::indexer::{key_pos, keys_distinct};
use crate::json::{lemma_view_pairs_len, view_pairs, JsonNumber, JsonValue, JsonView};
use crate::ordered::{
    float_order, in_range, leaf_lt, lemma_leaf_order, BoundView, FloatKey, IndexKey, KeyBound, leaf_rank, range_ok,
    KeyRange, LeafKey, RangeView,
};
use vstd::prelude::*;

verus! {

/// A node of the tree: a leaf of integer, float, boolean or string keys, a
/// leaf of documents holding arrays, a branch by field name, or nothing yet.
pub enum TreeNode {
    IntLeaf(Vec<(i64, Vec<(u64, JsonValue)>)>),
    FloatLeaf(Vec<(FloatKey, Vec<(u64, JsonValue)>)>),
    BoolLeaf(Vec<(bool, Vec<(u64, JsonValue)>)>),
    StringLeaf(Vec<(String, Vec<(u64, JsonValue)>)>),
    VecLeaf(Vec<(u64, JsonValue)>),
    Branch(Vec<(String, TreeNode)>),
    Null,
}

/// The model of a node. A leaf carries the rank of its key kind (0
/// integers, 1 floats, 2 booleans, 3 strings) and its buckets.
pub enum TreeView {
    Leaf(int, Seq<(LeafKey, Seq<(u64, JsonView)>)>),
    List(Seq<(u64, JsonView)>),
    Branch(Seq<(Seq<char>, TreeView)>),
    Null,
}

pub open spec fn view_fields(s: Seq<(String, TreeNode)>) -> Seq<(Seq<char>, TreeView)>
    decreases s,
{
    if s.len() == 0 {
        Seq::empty()
    } else {
        view_fields(s.drop_last()).push((s.last().0@, view_tree(s.last().1)))
    }
}

pub open spec fn view_tree(n: TreeNode) -> TreeView
    decreases n,
{
    match n {
        TreeNode::IntLeaf(s) => TreeView::Leaf(0, view_buckets(s@)),
        TreeNode::FloatLeaf(s) => TreeView::Leaf(1, view_buckets(s@)),
        TreeNode::BoolLeaf(s) => TreeView::Leaf(2, view_buckets(s@)),
        TreeNode::StringLeaf(s) => TreeView::Leaf(3, view_buckets(s@)),
        TreeNode::VecLeaf(s) => TreeView::List(view_docs(s@)),
        TreeNode::Branch(ch) => TreeView::Branch(view_fields(ch@)),
        TreeNode::Null => TreeView::Null,
    }
}

impl View for TreeNode {
    type V = TreeView;

    open spec fn view(&self) -> TreeView {
        view_tree(*self)
    }
}

pub proof fn lemma_view_fields(s: Seq<(String, TreeNode)>)
    ensures
        view_fields(s).len() == s.len(),
        forall|i: int| 0 <= i < s.len() ==> #[trigger] view_fields(s)[i] == (s[i].0@, view_tree(s[i].1)),
    decreases s.len(),
{
    if s.len() > 0 {
        lemma_view_fields(s.drop_last());
    }
}

/// Every leaf keeps its keys in increasing order, each of its own kind.
pub open spec fn tree_wf(t: TreeView) -> bool
    decreases t,
{
    match t {
        TreeView::Leaf(kd, s) => keys_increasing(s) && forall|q: int|
            0 <= q < s.len() ==> leaf_rank((#[trigger] s[q]).0) == kd,
        TreeView::Branch(ch) => forall|i: int| 0 <= i < ch.len() ==> !((#[trigger] ch[i]).1 is Branch) && tree_wf(ch[i].1),
        _ => true,
    }
}

/// The first document of a node: the first of its first bucket that is not
/// empty, the first of its list, or the first of its first field.
pub open spec fn tree_first(t: TreeView) -> Option<(u64, JsonView)>
    decreases t,
{
    match t {
        TreeView::Leaf(_, s) => first_doc(s),
        TreeView::List(s) => if s.len() > 0 {
            Some(s[0])
        } else {
            None
        },
        TreeView::Branch(ch) => if ch.len() > 0 {
            tree_first(ch[0].1)
        } else {
            None
        },
        TreeView::Null => None,
    }
}

/// All documents of a node in order: bucket after bucket, the list, or
/// those of its first field.
pub open spec fn tree_all(t: TreeView) -> Seq<(u64, JsonView)>
    decreases t,
{
    match t {
        TreeView::Leaf(_, s) => all_docs(s),
        TreeView::List(s) => s,
        TreeView::Branch(ch) => if ch.len() > 0 {
            tree_all(ch[0].1)
        } else {
            Seq::empty()
        },
        TreeView::Null => Seq::empty(),
    }
}

/// The value of field `k` of document `v`, if it is an object with that field.
pub open spec fn field_of(v: JsonView, k: Seq<char>) -> Option<JsonView> {
    match v {
        JsonView::Object(m) => match first_pos(m, k) {
            Some(p) => Some(m[p].1),
            None => None,
        },
        _ => None,
    }
}

/// A node after taking document number `x`, which holds `comp` at this
/// node's field, out of it.
pub open spec fn node_retain(c: TreeView, comp: JsonView, x: u64) -> TreeView {
    match c {
        TreeView::Leaf(kd, s) => TreeView::Leaf(kd, docs_retain(s, tree_key(comp).unwrap(), x)),
        TreeView::List(s) => TreeView::List(without_doc(s, x)),
        _ => c,
    }
}

/// Whether document `d` can be taken out of the fields `ch` from position
/// `from` on: it has each of those fields, with a key of the leaf's kind.
pub open spec fn fields_hold(ch: Seq<(Seq<char>, TreeView)>, from: int, d: JsonView) -> bool {
    forall|i: int|
        from <= i < ch.len() ==> (#[trigger] field_of(d, ch[i].0)) is Some && (ch[i].1 matches TreeView::Leaf(kd, _)
            ==> tree_key(field_of(d, ch[i].0).unwrap()) matches Some(k) && leaf_rank(k) == kd)
}

/// The fields `ch` with document `d` taken out of those from position
/// `from` on.
pub open spec fn fields_retain(ch: Seq<(Seq<char>, TreeView)>, from: int, d: (u64, JsonView)) -> Seq<
    (Seq<char>, TreeView),
> {
    Seq::new(
        ch.len(),
        |i: int|
            if i < from {
                ch[i]
            } else {
                (ch[i].0, node_retain(ch[i].1, field_of(d.1, ch[i].0).unwrap(), d.0))
            },
    )
}

/// Taking a document out of a node: the last of its first bucket that is
/// not empty, or the last of its list; from a branch, the document taken
/// out of its first field, which is then taken out of the other fields.
pub open spec fn tree_pop(t: TreeView) -> (Option<(u64, JsonView)>, TreeView)
    decreases t,
{
    match t {
        TreeView::Leaf(kd, s) => (pop_doc(s).0, TreeView::Leaf(kd, pop_doc(s).1)),
        TreeView::List(s) => if s.len() > 0 {
            (Some(s.last()), TreeView::List(s.drop_last()))
        } else {
            (None, t)
        },
        TreeView::Branch(ch) => if ch.len() > 0 {
            let (r, c0) = tree_pop(ch[0].1);
            let ch2 = ch.update(0, (ch[0].0, c0));
            match r {
                Some(d) => (Some(d), TreeView::Branch(fields_retain(ch2, 1, d))),
                None => (None, TreeView::Branch(ch2)),
            }
        } else {
            (None, t)
        },
        TreeView::Null => (None, t),
    }
}

/// Whether taking a document out of node `t` goes through: from a branch,
/// the document taken out of the first field has every other field.
pub open spec fn pop_ok(t: TreeView) -> bool {
    match t {
        TreeView::Branch(ch) => ch.len() > 0 ==> match tree_pop(ch[0].1).0 {
            Some(d) => fields_hold(ch, 1, d.1),
            None => true,
        },
        _ => true,
    }
}

/// The bit pattern of the double nearest to `u`, for `u` beyond `i64`
/// (rounding half to even): the top 53 bits of `u`, rounded by the 11 bits
/// below them, with the exponent of 2^63 (or of 2^64 when rounding carries).
pub open spec fn uint_float_bits(u: u64) -> u64 {
    let m = u >> 11u64;
    let rest = u & 0x7ffu64;
    let up: u64 = if rest > 0x400u64 || (rest == 0x400u64 && m & 1u64 == 1u64) {
        1
    } else {
        0
    };
    let m2 = (m + up) as u64;
    if m2 == 0x20_0000_0000_0000u64 {
        0x43F0_0000_0000_0000u64
    } else {
        0x43E0_0000_0000_0000u64 | (m2 & 0xF_FFFF_FFFF_FFFFu64)
    }
}

/// The key a plain value is held under in a tree: integers that fit `i64`
/// by their value, other numbers as floats (a float by its bits, a larger
/// integer by the double nearest to it), booleans and strings as they are.
pub open spec fn tree_key(v: JsonView) -> Option<LeafKey> {
    match v {
        JsonView::Number(JsonNumber::PosInt(u)) => if u <= i64::MAX {
            Some(LeafKey::Int(u as int))
        } else {
            Some(LeafKey::Float(float_order(uint_float_bits(u))))
        },
        JsonView::Number(JsonNumber::NegInt(i)) => Some(LeafKey::Int(i as int)),
        JsonView::Number(JsonNumber::Float(b)) => Some(LeafKey::Float(float_order(b))),
        JsonView::Bool(b) => Some(LeafKey::Bool(b)),
        JsonView::Str(t) => Some(LeafKey::Str(t)),
        _ => None,
    }
}

/// A keyed leaf of kind `kd` after adding `d` under `k`; `None` when the
/// node holds something else.
pub open spec fn keyed_add(t: TreeView, kd: int, k: LeafKey, d: (u64, JsonView)) -> Option<TreeView> {
    match t {
        TreeView::Null => Some(TreeView::Leaf(kd, docs_push(Seq::empty(), k, d))),
        TreeView::Leaf(kd2, s) => if kd2 == kd {
            Some(TreeView::Leaf(kd, docs_push(s, k, d)))
        } else {
            None
        },
        _ => None,
    }
}

/// A node after adding document `d` under the plain value `v` it holds at
/// this node: a number, boolean or string into the leaf of its key's kind,
/// an array into the list; a null is not held. `None` when the node holds
/// another kind, or `v` is an object.
pub open spec fn leaf_add(t: TreeView, v: JsonView, d: (u64, JsonView)) -> Option<TreeView> {
    match v {
        JsonView::Array(_) => match t {
            TreeView::Null => Some(TreeView::List(seq![d])),
            TreeView::List(s) => Some(TreeView::List(s.push(d))),
            _ => None,
        },
        JsonView::Null => Some(t),
        JsonView::Object(_) => None,
        _ => keyed_add(t, leaf_rank(tree_key(v).unwrap()), tree_key(v).unwrap(), d),
    }
}

/// Fields `ch` after adding document `d` under each of the fields `m`, one
/// after another: a field not yet present is added last.
pub open spec fn fields_add(ch: Seq<(Seq<char>, TreeView)>, m: Seq<(Seq<char>, JsonView)>, d: (u64, JsonView)) -> Option<
    Seq<(Seq<char>, TreeView)>,
>
    decreases m.len(),
{
    if m.len() == 0 {
        Some(ch)
    } else {
        match fields_add(ch, m.drop_last(), d) {
            Some(c) => {
                let k = m.last().0;
                match first_pos(c, k) {
                    Some(p) => match leaf_add(c[p].1, m.last().1, d) {
                        Some(n) => Some(c.update(p, (k, n))),
                        None => None,
                    },
                    None => match leaf_add(TreeView::Null, m.last().1, d) {
                        Some(n) => Some(c.push((k, n))),
                        None => None,
                    },
                }
            },
            None => None,
        }
    }
}

/// Node `t` after adding flattened document `v` as document `d`; `None` when
/// some field clashes with what the node holds.
pub open spec fn tree_add(t: TreeView, v: JsonView, d: (u64, JsonView)) -> Option<TreeView> {
    match v {
        JsonView::Object(m) => match t {
            TreeView::Null => match fields_add(Seq::empty(), m, d) {
                Some(c) => Some(TreeView::Branch(c)),
                None => None,
            },
            TreeView::Branch(ch) => match fields_add(ch, m, d) {
                Some(c) => Some(TreeView::Branch(c)),
                None => None,
            },
            _ => None,
        },
        _ => leaf_add(t, v, d),
    }
}

proof fn lemma_view_docs_len(s: Seq<(u64, JsonValue)>)
    ensures
        view_docs(s).len() == s.len(),
        forall|i: int| 0 <= i < s.len() ==> #[trigger] view_docs(s)[i] == (s[i].0, s[i].1@),
{
}

proof fn lemma_view_docs_push(s: Seq<(u64, JsonValue)>, d: (u64, JsonValue))
    ensures
        view_docs(s.push(d)) == view_docs(s).push((d.0, d.1@)),
{
    assert(view_docs(s.push(d)) =~= view_docs(s).push((d.0, d.1@)));
}

impl TreeNode {
    /// A node that holds nothing yet.
    pub fn new() -> (r: TreeNode)
        ensures
            r@ == TreeView::Null,
    {
        TreeNode::Null
    }

    /// A copy of the first document of this node, with its number.
    pub fn get(&self) -> (r: Option<(u64, JsonValue)>)
        ensures
            r matches Some(d) ==> tree_first(self@) == Some((d.0, d.1@)),
            r is None ==> tree_first(self@) is None,
        decreases self,
    {
        match self {
            TreeNode::IntLeaf(s) => get_primitive_from_map(s),
            TreeNode::FloatLeaf(s) => get_primitive_from_map(s),
            TreeNode::BoolLeaf(s) => get_primitive_from_map(s),
            TreeNode::StringLeaf(s) => get_primitive_from_map(s),
            TreeNode::VecLeaf(s) => {
                if s.len() > 0 {
                    assert(view_docs(s@)[0] == (s@[0].0, s@[0].1@));
                    Some(copy_doc(&s[0]))
                } else {
                    None
                }
            },
            TreeNode::Branch(ch) => {
                if ch.len() > 0 {
                    proof {
                        lemma_view_fields(ch@);
                        assert(decreases_to!(*self => (*self)->Branch_0));
                        assert(decreases_to!(*ch => ch@));
                        assert(decreases_to!(ch@ => ch@[0]));
                        assert(decreases_to!(ch@[0] => ch@[0].1));
                    }
                    ch[0].1.get()
                } else {
                    None
                }
            },
            TreeNode::Null => None,
        }
    }

    /// Copies of all documents of this node, in order, with their numbers.
    pub fn get_all(&self) -> (r: Vec<(u64, JsonValue)>)
        ensures
            view_docs(r@) == tree_all(self@),
        decreases self,
    {
        match self {
            TreeNode::IntLeaf(s) => get_all_prims_from_map(s),
            TreeNode::FloatLeaf(s) => get_all_prims_from_map(s),
            TreeNode::BoolLeaf(s) => get_all_prims_from_map(s),
            TreeNode::StringLeaf(s) => get_all_prims_from_map(s),
            TreeNode::VecLeaf(s) => {
                let mut out: Vec<(u64, JsonValue)> = Vec::new();
                let mut i: usize = 0;
                while i < s.len()
                    invariant
                        i <= s@.len(),
                        view_docs(out@) == view_docs(s@).take(i as int),
                    decreases s@.len() - i,
                {
                    let ghost prev = out@;
                    out.push(copy_doc(&s[i]));
                    proof {
                        lemma_view_docs_push(prev, out@.last());
                        assert(out@ == prev.push(out@.last()));
                        assert(view_docs(s@).take(i + 1) =~= view_docs(s@).take(i as int).push(view_docs(s@)[i as int]));
                    }
                    i = i + 1;
                }
                assert(view_docs(s@).take(s@.len() as int) =~= view_docs(s@));
                out
            },
            TreeNode::Branch(ch) => {
                if ch.len() > 0 {
                    proof {
                        lemma_view_fields(ch@);
                        assert(decreases_to!(*self => (*self)->Branch_0));
                        assert(decreases_to!(*ch => ch@));
                        assert(decreases_to!(ch@ => ch@[0]));
                        assert(decreases_to!(ch@[0] => ch@[0].1));
                    }
                    ch[0].1.get_all()
                } else {
                    assert(view_docs(Seq::<(u64, JsonValue)>::empty()) =~= Seq::<(u64, JsonView)>::empty());
                    Vec::new()
                }
            },
            TreeNode::Null => {
                assert(view_docs(Seq::<(u64, JsonValue)>::empty()) =~= Seq::<(u64, JsonView)>::empty());
                Vec::new()
            },
        }
    }
}

/// The value of field `k` of document `v`, if it is an object with that field.
fn get_field<'a>(v: &'a JsonValue, k: &String) -> (r: Option<&'a JsonValue>)
    ensures
        r matches Some(c) ==> field_of(v@, k@) == Some(c@),
        r is None ==> field_of(v@, k@) is None,
{
    match v {
        JsonValue::Object(m) => {
            proof {
                lemma_view_pairs_len(m@);
            }
            match find_first(m, k) {
                Some(p) => Some(&m[p].1),
                None => None,
            }
        },
        _ => None,
    }
}

impl TreeNode {
    /// Takes document number `x`, which holds `comp` at this node's field,
    /// out of this node.
    fn retain_doc(&mut self, comp: &JsonValue, x: u64)
        requires
            tree_wf(old(self)@),
            old(self)@ matches TreeView::Leaf(kd, _) ==> tree_key(comp@) matches Some(k) && leaf_rank(k) == kd,
        ensures
            tree_wf(final(self)@),
            final(self)@ == node_retain(old(self)@, comp@, x),
    {
        match self {
            TreeNode::IntLeaf(s) => {
                match comp {
                    JsonValue::Number(n) => match n.as_i64() {
                        Some(i) => bucket_retain(s, &i, x),
                        None => {},
                    },
                    _ => {},
                }
            },
            TreeNode::FloatLeaf(s) => {
                match comp {
                    JsonValue::Number(n) => match float_bits_of(n) {
                        Some(b) => bucket_retain(s, &FloatKey { bits: b }, x),
                        None => {},
                    },
                    _ => {},
                }
            },
            TreeNode::BoolLeaf(s) => {
                match comp {
                    JsonValue::Bool(b) => bucket_retain(s, b, x),
                    _ => {},
                }
            },
            TreeNode::StringLeaf(s) => {
                match comp {
                    JsonValue::String(k) => bucket_retain(s, k, x),
                    _ => {},
                }
            },
            TreeNode::VecLeaf(s) => {
                let kept = docs_without(s, x);
                *s = kept;
            },
            _ => {},
        }
    }
}

/// Takes document `d` out of the fields `ch` from position `from` on: out
/// of the bucket of the key it holds there, or out of the list. Where each
/// leaf holds its documents in the buckets of their keys and a number names
/// one document, no document with that number is left in those fields
/// (`law_remove_value_arc`).
pub fn remove_value_arc(ch: &mut Vec<(String, TreeNode)>, from: usize, d: &(u64, JsonValue))
    requires
        tree_wf(TreeView::Branch(view_fields(old(ch)@))),
        fields_hold(view_fields(old(ch)@), from as int, d.1@),
    ensures
        tree_wf(TreeView::Branch(view_fields(final(ch)@))),
        view_fields(final(ch)@) == fields_retain(view_fields(old(ch)@), from as int, (d.0, d.1@)),
{
    let ghost v0 = view_fields(ch@);
    proof {
        lemma_view_fields(ch@);
    }
    let mut i: usize = from;
    while i < ch.len()
        invariant
            from <= i,
            i <= ch@.len() || ch@.len() <= from,
            v0.len() == ch@.len(),
            view_fields(ch@).len() == ch@.len(),
            forall|q: int| 0 <= q < ch@.len() ==> #[trigger] view_fields(ch@)[q] == (ch@[q].0@, view_tree(ch@[q].1)),
            tree_wf(TreeView::Branch(view_fields(ch@))),
            fields_hold(v0, from as int, d.1@),
            forall|q: int| 0 <= q < ch@.len() ==> (#[trigger] view_fields(ch@)[q]).0 == v0[q].0,
            forall|q: int| 0 <= q < ch@.len() && q >= i ==> #[trigger] view_fields(ch@)[q] == v0[q],
            forall|q: int| 0 <= q < i && q < ch@.len() ==> #[trigger] view_fields(ch@)[q] == fields_retain(v0, from as int, (d.0, d.1@))[q],
        decreases ch@.len() - i,
    {
        let ghost before = view_fields(ch@);
        let comp = get_field(&d.1, &ch[i].0);
        proof {
            assert(before[i as int] == v0[i as int]);
            assert(field_of(d.1@, v0[i as int].0) is Some);
        }
        match comp {
            Some(c) => {
                let mut slot = (String::new(), TreeNode::Null);
                std::mem::swap(&mut slot, &mut ch[i]);
                proof {
                    assert(view_tree(slot.1) == v0[i as int].1);
                    assert(tree_wf(before[i as int].1));
                }
                slot.1.retain_doc(c, d.0);
                ch.set(i, slot);
                proof {
                    lemma_view_fields(ch@);
                    let now = view_fields(ch@);
                    assert(now =~= before.update(i as int, (v0[i as int].0, node_retain(v0[i as int].1, c@, d.0))));
                    assert forall|q: int| 0 <= q < now.len() implies !((#[trigger] now[q]).1 is Branch) && tree_wf(now[q].1) by {
                        if q != i {
                            assert(now[q] == before[q]);
                        }
                    }
                }
            },
            None => {},
        }
        i = i + 1;
    }
    proof {
        lemma_view_fields(ch@);
        assert(view_fields(ch@) =~= fields_retain(v0, from as int, (d.0, d.1@)));
    }
}

impl TreeNode {
    /// Takes a document out of a node that is not a branch: the last of its
    /// first bucket that is not empty, or the last of its list.
    fn remove_leaf(&mut self) -> (r: Option<(u64, JsonValue)>)
        requires
            tree_wf(old(self)@),
            !(old(self)@ is Branch),
        ensures
            tree_wf(final(self)@),
            !(final(self)@ is Branch),
            (match r {
                Some(d) => Some((d.0, d.1@)),
                None => None,
            }) == tree_pop(old(self)@).0,
            final(self)@ == tree_pop(old(self)@).1,
    {
        match self {
            TreeNode::IntLeaf(s) => remove_primitive_from_map(s),
            TreeNode::FloatLeaf(s) => remove_primitive_from_map(s),
            TreeNode::BoolLeaf(s) => remove_primitive_from_map(s),
            TreeNode::StringLeaf(s) => remove_primitive_from_map(s),
            TreeNode::VecLeaf(s) => {
                let ghost before = s@;
                let r = s.pop();
                proof {
                    if before.len() > 0 {
                        assert(view_docs(s@) =~= view_docs(before).drop_last());
                        assert(view_docs(before).last() == (before.last().0, before.last().1@));
                    }
                }
                r
            },
            _ => None,
        }
    }

    /// Takes a document out of this node: see `tree_pop`.
    pub fn remove_helper(&mut self) -> (r: Option<(u64, JsonValue)>)
        requires
            tree_wf(old(self)@),
            pop_ok(old(self)@),
        ensures
            tree_wf(final(self)@),
            (match r {
                Some(d) => Some((d.0, d.1@)),
                None => None,
            }) == tree_pop(old(self)@).0,
            final(self)@ == tree_pop(old(self)@).1,
    {
        match self {
            TreeNode::Branch(ch) => remove_object(ch),
            _ => self.remove_leaf(),
        }
    }
}

/// Takes a document out of the fields `ch`: the one taken out of the first
/// field, which is then taken out of the other fields too.
pub fn remove_object(ch: &mut Vec<(String, TreeNode)>) -> (r: Option<(u64, JsonValue)>)
    requires
        tree_wf(TreeView::Branch(view_fields(old(ch)@))),
        pop_ok(TreeView::Branch(view_fields(old(ch)@))),
    ensures
        tree_wf(TreeView::Branch(view_fields(final(ch)@))),
        (match r {
            Some(d) => Some((d.0, d.1@)),
            None => None,
        }) == tree_pop(TreeView::Branch(view_fields(old(ch)@))).0,
        TreeView::Branch(view_fields(final(ch)@)) == tree_pop(TreeView::Branch(view_fields(old(ch)@))).1,
{
    let ghost v0 = view_fields(ch@);
    proof {
        lemma_view_fields(ch@);
    }
    if ch.len() == 0 {
        return None;
    }
    let mut slot = (String::new(), TreeNode::Null);
    std::mem::swap(&mut slot, &mut ch[0]);
    proof {
        assert(view_tree(slot.1) == v0[0].1);
        assert(tree_wf(v0[0].1));
    }
    let r = slot.1.remove_leaf();
    let ghost c0 = view_tree(slot.1);
    ch.set(0, slot);
    let ghost v1 = view_fields(ch@);
    proof {
        lemma_view_fields(ch@);
        assert(v1 =~= v0.update(0, (v0[0].0, c0)));
        assert forall|q: int| 0 <= q < v1.len() implies !((#[trigger] v1[q]).1 is Branch) && tree_wf(v1[q].1) by {
            if q != 0 {
                assert(v1[q] == v0[q]);
            }
        }
    }
    match r {
        Some(d) => {
            proof {
                assert forall|i: int| 1 <= i < v1.len() implies (#[trigger] field_of(d.1@, v1[i].0)) is Some && (v1[i].1 matches TreeView::Leaf(kd, _)
                    ==> tree_key(field_of(d.1@, v1[i].0).unwrap()) matches Some(k) && leaf_rank(k) == kd) by {
                    assert(v1[i] == v0[i]);
                    assert(field_of(d.1@, v0[i].0) is Some);
                }
            }
            remove_value_arc(ch, 1, &d);
            Some(d)
        },
        None => None,
    }
}

/// Adding under a key of kind `kd` keeps every key of the leaf of kind `kd`.
proof fn lemma_docs_push_kind(s: Seq<(LeafKey, Seq<(u64, JsonView)>)>, k: LeafKey, d: (u64, JsonView), kd: int)
    requires
        keys_increasing(s),
        forall|q: int| 0 <= q < s.len() ==> leaf_rank((#[trigger] s[q]).0) == kd,
        leaf_rank(k) == kd,
    ensures
        forall|q: int| 0 <= q < docs_push(s, k, d).len() ==> leaf_rank((#[trigger] docs_push(s, k, d)[q]).0) == kd,
{
    lemma_key_slot(s, k);
    let r = docs_push(s, k, d);
    let p = key_slot(s, k);
    assert forall|q: int| 0 <= q < r.len() implies leaf_rank((#[trigger] r[q]).0) == kd by {
        if key_at(s, k) is None {
            if q < p {
                assert(r[q] == s[q]);
            } else if q > p {
                assert(r[q] == s[q - 1]);
            }
        } else if q != p {
            assert(r[q] == s[q]);
        }
    }
}

proof fn lemma_fields_add_prefix(ch: Seq<(Seq<char>, TreeView)>, m: Seq<(Seq<char>, JsonView)>, d: (u64, JsonView), j: int)
    requires
        0 <= j <= m.len(),
        fields_add(ch, m, d) is Some,
    ensures
        fields_add(ch, m.take(j), d) is Some,
    decreases m.len() - j,
{
    if j < m.len() {
        lemma_fields_add_prefix(ch, m, d, j + 1);
        assert(m.take(j + 1).drop_last() =~= m.take(j));
    } else {
        assert(m.take(j) =~= m);
    }
}

/// `first_pos` finds a pair with the key.
proof fn lemma_first_pos_found<V>(m: Seq<(Seq<char>, V)>, k: Seq<char>)
    ensures
        first_pos(m, k) matches Some(p) ==> 0 <= p < m.len() && m[p].0 == k,
    decreases m.len(),
{
    if m.len() > 0 {
        lemma_first_pos_found(m.drop_first(), k);
    }
}

/// The position of the first field named `k`.
fn find_field(ch: &Vec<(String, TreeNode)>, k: &String) -> (r: Option<usize>)
    ensures
        r matches Some(i) ==> i < ch@.len() && first_pos(view_fields(ch@), k@) == Some(i as int),
        r is None ==> first_pos(view_fields(ch@), k@) is None,
{
    let ghost m0 = view_fields(ch@);
    proof {
        lemma_view_fields(ch@);
    }
    let mut i: usize = 0;
    assert(m0.skip(0) =~= m0);
    while i < ch.len()
        invariant
            i <= ch@.len(),
            m0 == view_fields(ch@),
            m0.len() == ch@.len(),
            forall|q: int| 0 <= q < ch@.len() ==> #[trigger] m0[q] == (ch@[q].0@, view_tree(ch@[q].1)),
            first_pos(m0, k@) == (match first_pos(m0.skip(i as int), k@) {
                Some(p) => Some(p + i),
                None => None,
            }),
        decreases ch@.len() - i,
    {
        assert(m0.skip(i as int)[0] == m0[i as int]);
        if ch[i].0 == *k {
            return Some(i);
        }
        assert(m0.skip(i as int).drop_first() =~= m0.skip(i + 1));
        i = i + 1;
    }
    None
}

/// The bit pattern of the double nearest to `u`: see `uint_float_bits`.
fn big_uint_bits(u: u64) -> (r: u64)
    ensures
        r == uint_float_bits(u),
{
    let m = u >> 11u64;
    let rest = u & 0x7ffu64;
    let up: u64 = if rest > 0x400u64 || (rest == 0x400u64 && m & 1u64 == 1u64) {
        1
    } else {
        0
    };
    assert(u >> 11u64 < 0x20_0000_0000_0000u64) by (bit_vector);
    let m2 = m + up;
    if m2 == 0x20_0000_0000_0000u64 {
        0x43F0_0000_0000_0000u64
    } else {
        0x43E0_0000_0000_0000u64 | (m2 & 0xF_FFFF_FFFF_FFFFu64)
    }
}

/// The bit pattern a number is held under in a float leaf: that of a float,
/// or of the double nearest to an integer beyond `i64`; `None` for an
/// integer that fits `i64`.
fn float_bits_of(n: &JsonNumber) -> (r: Option<u64>)
    ensures
        r == (match *n {
            JsonNumber::PosInt(u) => if u <= i64::MAX {
                None
            } else {
                Some(uint_float_bits(u))
            },
            JsonNumber::NegInt(_) => None,
            JsonNumber::Float(b) => Some(b),
        }),
{
    match n {
        JsonNumber::PosInt(u) => if *u <= 9223372036854775807u64 {
            None
        } else {
            Some(big_uint_bits(*u))
        },
        JsonNumber::NegInt(_) => None,
        JsonNumber::Float(b) => Some(*b),
    }
}

impl TreeNode {
    fn is_null(&self) -> (r: bool)
        ensures
            r == (self@ is Null),
    {
        match self {
            TreeNode::Null => true,
            _ => false,
        }
    }

    /// Adds document `d` under integer key `i`.
    fn add_value_by_int(&mut self, i: i64, d: (u64, JsonValue))
        requires
            tree_wf(old(self)@),
            keyed_add(old(self)@, 0, LeafKey::Int(i as int), (d.0, d.1@)) is Some,
        ensures
            tree_wf(final(self)@),
            final(self)@ == keyed_add(old(self)@, 0, LeafKey::Int(i as int), (d.0, d.1@)).unwrap(),
    {
        let ghost dv = (d.0, d.1@);
        if self.is_null() {
            *self = TreeNode::IntLeaf(Vec::new());
            assert(view_buckets(Seq::<(i64, Vec<(u64, JsonValue)>)>::empty()) =~= Seq::<(LeafKey, Seq<(u64, JsonView)>)>::empty());
        }
        match self {
            TreeNode::IntLeaf(s) => {
                let ghost v = view_buckets(s@);
                proof {
                    lemma_docs_push_kind(v, i.leaf(), dv, 0);
                }
                bucket_push(s, i, d);
            },
            _ => {},
        }
    }

    /// Adds document `d` under float key `k`.
    fn add_value_by_float(&mut self, k: FloatKey, d: (u64, JsonValue))
        requires
            tree_wf(old(self)@),
            keyed_add(old(self)@, 1, LeafKey::Float(float_order(k.bits)), (d.0, d.1@)) is Some,
        ensures
            tree_wf(final(self)@),
            final(self)@ == keyed_add(old(self)@, 1, LeafKey::Float(float_order(k.bits)), (d.0, d.1@)).unwrap(),
    {
        let ghost dv = (d.0, d.1@);
        if self.is_null() {
            *self = TreeNode::FloatLeaf(Vec::new());
            assert(view_buckets(Seq::<(FloatKey, Vec<(u64, JsonValue)>)>::empty()) =~= Seq::<(LeafKey, Seq<(u64, JsonView)>)>::empty());
        }
        match self {
            TreeNode::FloatLeaf(s) => {
                let ghost v = view_buckets(s@);
                proof {
                    lemma_docs_push_kind(v, k.leaf(), dv, 1);
                }
                bucket_push(s, k, d);
            },
            _ => {},
        }
    }

    /// Adds document `d` under number `n`: by its value when it is an
    /// integer that fits `i64`, as a float otherwise.
    fn add_value_by_num(&mut self, n: &JsonNumber, d: (u64, JsonValue))
        requires
            tree_wf(old(self)@),
            leaf_add(old(self)@, JsonView::Number(*n), (d.0, d.1@)) is Some,
        ensures
            tree_wf(final(self)@),
            final(self)@ == leaf_add(old(self)@, JsonView::Number(*n), (d.0, d.1@)).unwrap(),
    {
        match n.as_i64() {
            Some(i) => self.add_value_by_int(i, d),
            None => match float_bits_of(n) {
                Some(b) => self.add_value_by_float(FloatKey { bits: b }, d),
                None => {},
            },
        }
    }

    /// Adds document `d` under boolean key `b`.
    fn add_value_by_bool(&mut self, b: bool, d: (u64, JsonValue))
        requires
            tree_wf(old(self)@),
            keyed_add(old(self)@, 2, LeafKey::Bool(b), (d.0, d.1@)) is Some,
        ensures
            tree_wf(final(self)@),
            final(self)@ == keyed_add(old(self)@, 2, LeafKey::Bool(b), (d.0, d.1@)).unwrap(),
    {
        let ghost dv = (d.0, d.1@);
        if self.is_null() {
            *self = TreeNode::BoolLeaf(Vec::new());
            assert(view_buckets(Seq::<(bool, Vec<(u64, JsonValue)>)>::empty()) =~= Seq::<(LeafKey, Seq<(u64, JsonView)>)>::empty());
        }
        match self {
            TreeNode::BoolLeaf(s) => {
                let ghost v = view_buckets(s@);
                proof {
                    lemma_docs_push_kind(v, b.leaf(), dv, 2);
                }
                bucket_push(s, b, d);
            },
            _ => {},
        }
    }

    /// Adds document `d` under string key `k`.
    fn add_value_by_string(&mut self, k: String, d: (u64, JsonValue))
        requires
            tree_wf(old(self)@),
            keyed_add(old(self)@, 3, LeafKey::Str(k@), (d.0, d.1@)) is Some,
        ensures
            tree_wf(final(self)@),
            final(self)@ == keyed_add(old(self)@, 3, LeafKey::Str(k@), (d.0, d.1@)).unwrap(),
    {
        let ghost dv = (d.0, d.1@);
        let ghost kl = k.leaf();
        if self.is_null() {
            *self = TreeNode::StringLeaf(Vec::new());
            assert(view_buckets(Seq::<(String, Vec<(u64, JsonValue)>)>::empty()) =~= Seq::<(LeafKey, Seq<(u64, JsonView)>)>::empty());
        }
        match self {
            TreeNode::StringLeaf(s) => {
                let ghost v = view_buckets(s@);
                proof {
                    lemma_docs_push_kind(v, kl, dv, 3);
                }
                bucket_push(s, k, d);
            },
            _ => {},
        }
    }

    /// Adds document `d`, which holds an array at this node's field.
    fn add_value_by_array(&mut self, d: (u64, JsonValue))
        requires
            old(self)@ is Null || old(self)@ is List,
        ensures
            final(self)@ == (match old(self)@ {
                TreeView::List(s) => TreeView::List(s.push((d.0, d.1@))),
                _ => TreeView::List(seq![(d.0, d.1@)]),
            }),
    {
        let ghost dv = (d.0, d.1@);
        if self.is_null() {
            *self = TreeNode::VecLeaf(Vec::new());
            assert(view_docs(Seq::<(u64, JsonValue)>::empty()) =~= Seq::<(u64, JsonView)>::empty());
        }
        match self {
            TreeNode::VecLeaf(s) => {
                let ghost before = s@;
                s.push(d);
                proof {
                    lemma_view_docs_push(before, (dv.0, s@.last().1));
                    assert(s@ == before.push(s@.last()));
                }
            },
            _ => {},
        }
    }

    /// Adds document `d` under the plain value `v` it holds at this node's
    /// field: see `leaf_add`.
    fn add_leaf_value(&mut self, v: &JsonValue, d: (u64, JsonValue))
        requires
            tree_wf(old(self)@),
            !(old(self)@ is Branch),
            leaf_add(old(self)@, v@, (d.0, d.1@)) is Some,
        ensures
            tree_wf(final(self)@),
            !(final(self)@ is Branch),
            final(self)@ == leaf_add(old(self)@, v@, (d.0, d.1@)).unwrap(),
    {
        match v {
            JsonValue::Number(n) => self.add_value_by_num(n, d),
            JsonValue::Bool(b) => self.add_value_by_bool(*b, d),
            JsonValue::String(k) => self.add_value_by_string(k.clone(), d),
            JsonValue::Array(_) => self.add_value_by_array(d),
            _ => {},
        }
    }
}

impl TreeNode {
    /// Adds document `d`, an object whose fields are `map`, under each of its
    /// fields: see `fields_add`.
    fn add_value_by_object(&mut self, map: &Vec<(String, JsonValue)>, d: &(u64, JsonValue))
        requires
            tree_wf(old(self)@),
            tree_add(old(self)@, JsonView::Object(view_pairs(map@)), (d.0, d.1@)) is Some,
        ensures
            tree_wf(final(self)@),
            final(self)@ == tree_add(old(self)@, JsonView::Object(view_pairs(map@)), (d.0, d.1@)).unwrap(),
    {
        let ghost dv = (d.0, d.1@);
        let ghost m = view_pairs(map@);
        if self.is_null() {
            *self = TreeNode::Branch(Vec::new());
            assert(view_fields(Seq::<(String, TreeNode)>::empty()) =~= Seq::<(Seq<char>, TreeView)>::empty());
        }
        match self {
            TreeNode::Branch(ch) => {
                let ghost ch0 = view_fields(ch@);
                proof {
                    lemma_view_pairs_len(map@);
                    lemma_view_fields(ch@);
                    assert(m.take(0) =~= Seq::<(Seq<char>, JsonView)>::empty());
                }
                let mut j: usize = 0;
                while j < map.len()
                    invariant
                        j <= map@.len(),
                        m == view_pairs(map@),
                        m.len() == map@.len(),
                        forall|q: int| 0 <= q < map@.len() ==> #[trigger] m[q] == (map@[q].0@, map@[q].1@),
                        fields_add(ch0, m, dv) is Some,
                        fields_add(ch0, m.take(j as int), dv) == Some(view_fields(ch@)),
                        tree_wf(TreeView::Branch(view_fields(ch@))),
                        dv == (d.0, d.1@),
                    decreases map@.len() - j,
                {
                    let ghost c = view_fields(ch@);
                    proof {
                        lemma_fields_add_prefix(ch0, m, dv, j + 1);
                        assert(m.take(j + 1).drop_last() =~= m.take(j as int));
                        assert(m.take(j + 1).last() == m[j as int]);
                        lemma_view_fields(ch@);
                    }
                    let dj = (d.0, d.1.copy());
                    match find_field(ch, &map[j].0) {
                        Some(p) => {
                            let mut slot = (String::new(), TreeNode::Null);
                            std::mem::swap(&mut slot, &mut ch[p]);
                            proof {
                                assert(view_tree(slot.1) == c[p as int].1);
                                assert(tree_wf(c[p as int].1));
                            }
                            slot.1.add_leaf_value(&map[j].1, dj);
                            let ghost n = view_tree(slot.1);
                            ch.set(p, slot);
                            proof {
                                lemma_view_fields(ch@);
                                let now = view_fields(ch@);
                                lemma_first_pos_found(c, m[j as int].0);
                                assert(c[p as int].0 == m[j as int].0);
                                assert(now =~= c.update(p as int, (m[j as int].0, n)));
                                assert forall|q: int| 0 <= q < now.len() implies !((#[trigger] now[q]).1 is Branch) && tree_wf(now[q].1) by {
                                    if q != p {
                                        assert(now[q] == c[q]);
                                    }
                                }
                            }
                        },
                        None => {
                            let mut node = TreeNode::Null;
                            node.add_leaf_value(&map[j].1, dj);
                            let ghost n = view_tree(node);
                            ch.push((map[j].0.clone(), node));
                            proof {
                                lemma_view_fields(ch@);
                                let now = view_fields(ch@);
                                assert(now =~= c.push((m[j as int].0, n)));
                                assert forall|q: int| 0 <= q < now.len() implies !((#[trigger] now[q]).1 is Branch) && tree_wf(now[q].1) by {
                                    if q < c.len() {
                                        assert(now[q] == c[q]);
                                    }
                                }
                            }
                        },
                    }
                    j = j + 1;
                }
                proof {
                    assert(m.take(map@.len() as int) =~= m);
                }
            },
            _ => {},
        }
    }

    /// Adds flattened document `v` as document number `x`: under the key it
    /// holds when it is plain, under each of its fields when it is an object.
    pub fn add(&mut self, v: &JsonValue, x: u64)
        requires
            tree_wf(old(self)@),
            tree_add(old(self)@, v@, (x, v@)) is Some,
        ensures
            tree_wf(final(self)@),
            final(self)@ == tree_add(old(self)@, v@, (x, v@)).unwrap(),
    {
        let d = (x, v.copy());
        match v {
            JsonValue::Object(map) => self.add_value_by_object(map, &d),
            JsonValue::Number(n) => self.add_value_by_num(n, d),
            JsonValue::Bool(b) => self.add_value_by_bool(*b, d),
            JsonValue::String(k) => self.add_value_by_string(k.clone(), d),
            JsonValue::Array(_) => self.add_value_by_array(d),
            JsonValue::Null => {},
        }
    }
}

/// The node of field `k` (nothing when there is no such field).
pub open spec fn child_at(ch: Seq<(Seq<char>, TreeView)>, k: Seq<char>) -> TreeView {
    match first_pos(ch, k) {
        Some(p) => ch[p].1,
        None => TreeView::Null,
    }
}

/// `first_pos` is the first position holding the key.
proof fn lemma_first_pos_first<V>(m: Seq<(Seq<char>, V)>, k: Seq<char>)
    ensures
        first_pos(m, k) is None <==> forall|i: int| 0 <= i < m.len() ==> (#[trigger] m[i]).0 != k,
        first_pos(m, k) matches Some(p) ==> 0 <= p < m.len() && m[p].0 == k && forall|i: int|
            0 <= i < p ==> (#[trigger] m[i]).0 != k,
    decreases m.len(),
{
    if m.len() > 0 {
        lemma_first_pos_first(m.drop_first(), k);
        assert forall|i: int| 0 < i < m.len() implies #[trigger] m[i] == m.drop_first()[i - 1] by {}
        if m[0].0 != k {
            if first_pos(m.drop_first(), k) is None {
                assert forall|i: int| 0 <= i < m.len() implies (#[trigger] m[i]).0 != k by {
                    if i > 0 {
                        assert(m[i] == m.drop_first()[i - 1]);
                    }
                }
            } else {
                let p = first_pos(m.drop_first(), k).unwrap();
                assert(m[p + 1] == m.drop_first()[p]);
                assert forall|i: int| 0 <= i < p + 1 implies (#[trigger] m[i]).0 != k by {
                    if i > 0 {
                        assert(m[i] == m.drop_first()[i - 1]);
                    }
                }
            }
        }
    }
}

/// Changing or adding the field of another key leaves the node of `k` as it was.
proof fn lemma_child_at_other(c: Seq<(Seq<char>, TreeView)>, k2: Seq<char>, n: TreeView, k: Seq<char>)
    requires
        k2 != k,
    ensures
        first_pos(c, k2) matches Some(p) ==> child_at(c.update(p, (k2, n)), k) == child_at(c, k),
        first_pos(c, k2) is None ==> child_at(c.push((k2, n)), k) == child_at(c, k),
{
    lemma_first_pos_first(c, k);
    lemma_first_pos_first(c, k2);
    if let Some(p) = first_pos(c, k2) {
        let u = c.update(p, (k2, n));
        lemma_first_pos_first(u, k);
        assert forall|i: int| 0 <= i < c.len() && i != p implies #[trigger] u[i] == c[i] by {}
        if let Some(q) = first_pos(c, k) {
            assert(q != p);
            assert(u[q] == c[q]);
            if let Some(q2) = first_pos(u, k) {
                if q2 < q {
                    if q2 != p {
                        assert(u[q2] == c[q2]);
                    }
                } else if q2 > q {
                    assert(u[q].0 == k);
                }
            }
        } else {
            assert forall|i: int| 0 <= i < u.len() implies (#[trigger] u[i]).0 != k by {
                if i != p {
                    assert(u[i] == c[i]);
                }
            }
        }
    } else {
        let u = c.push((k2, n));
        lemma_first_pos_first(u, k);
        assert forall|i: int| 0 <= i < c.len() implies #[trigger] u[i] == c[i] by {}
        if let Some(q) = first_pos(c, k) {
            assert(u[q] == c[q]);
            if let Some(q2) = first_pos(u, k) {
                if q2 < q {
                    assert(u[q2] == c[q2]);
                } else if q2 > q {
                    assert(u[q].0 == k);
                }
            }
        } else {
            assert forall|i: int| 0 <= i < u.len() implies (#[trigger] u[i]).0 != k by {
                if i < c.len() {
                    assert(u[i] == c[i]);
                }
            }
        }
    }
}

/// Adding fields whose keys are not `k` leaves the node of `k` as it was.
proof fn lemma_fields_add_other(ch: Seq<(Seq<char>, TreeView)>, m: Seq<(Seq<char>, JsonView)>, d: (u64, JsonView), k: Seq<char>)
    requires
        fields_add(ch, m, d) is Some,
        forall|j: int| 0 <= j < m.len() ==> (#[trigger] m[j]).0 != k,
    ensures
        child_at(fields_add(ch, m, d).unwrap(), k) == child_at(ch, k),
    decreases m.len(),
{
    if m.len() > 0 {
        let m0 = m.drop_last();
        assert forall|j: int| 0 <= j < m0.len() implies (#[trigger] m0[j]).0 != k by {
            assert(m0[j] == m[j]);
        }
        assert(fields_add(ch, m0, d) is Some);
        lemma_fields_add_other(ch, m0, d, k);
        let c = fields_add(ch, m0, d).unwrap();
        let k2 = m.last().0;
        assert(m[m.len() - 1] == m.last());
        match first_pos(c, k2) {
            Some(p) => {
                lemma_child_at_other(c, k2, leaf_add(c[p].1, m.last().1, d).unwrap(), k);
            },
            None => {
                lemma_child_at_other(c, k2, leaf_add(TreeView::Null, m.last().1, d).unwrap(), k);
            },
        }
    }
}

/// With distinct keys, adding fields goes through exactly when each field
/// can be added to the node it has before.
proof fn lemma_fields_add_some(ch: Seq<(Seq<char>, TreeView)>, m: Seq<(Seq<char>, JsonView)>, d: (u64, JsonView))
    requires
        keys_distinct(m),
    ensures
        fields_add(ch, m, d) is Some <==> forall|j: int| 0 <= j < m.len() ==> (#[trigger] leaf_add(child_at(ch, m[j].0), m[j].1, d)) is Some,
    decreases m.len(),
{
    if m.len() > 0 {
        let m0 = m.drop_last();
        assert(keys_distinct(m0)) by {
            assert forall|a: int, b: int| 0 <= a < b < m0.len() implies (#[trigger] m0[a]).0 != (#[trigger] m0[b]).0 by {
                assert(m0[a] == m[a] && m0[b] == m[b]);
            }
        }
        lemma_fields_add_some(ch, m0, d);
        let k = m.last().0;
        assert(m[m.len() - 1] == m.last());
        assert forall|j: int| 0 <= j < m0.len() implies (#[trigger] m0[j]).0 != k by {
            assert(m0[j] == m[j]);
        }
        assert forall|j: int| 0 <= j < m0.len() implies #[trigger] m[j] == m0[j] by {}
        if fields_add(ch, m0, d) is Some {
            lemma_fields_add_other(ch, m0, d, k);
            let c = fields_add(ch, m0, d).unwrap();
            assert(child_at(c, k) == child_at(ch, k));
            if forall|j: int| 0 <= j < m.len() ==> (#[trigger] leaf_add(child_at(ch, m[j].0), m[j].1, d)) is Some {
                assert(leaf_add(child_at(ch, m[m.len() - 1].0), m[m.len() - 1].1, d) is Some);
                assert forall|j: int| 0 <= j < m0.len() implies (#[trigger] leaf_add(child_at(ch, m0[j].0), m0[j].1, d)) is Some by {
                    assert(leaf_add(child_at(ch, m[j].0), m[j].1, d) is Some);
                }
            }
            if fields_add(ch, m, d) is Some {
                assert forall|j: int| 0 <= j < m.len() implies (#[trigger] leaf_add(child_at(ch, m[j].0), m[j].1, d)) is Some by {
                    if j < m0.len() {
                        assert(leaf_add(child_at(ch, m0[j].0), m0[j].1, d) is Some);
                    }
                }
            }
        } else {
            if forall|j: int| 0 <= j < m.len() ==> (#[trigger] leaf_add(child_at(ch, m[j].0), m[j].1, d)) is Some {
                assert forall|j: int| 0 <= j < m0.len() implies (#[trigger] leaf_add(child_at(ch, m0[j].0), m0[j].1, d)) is Some by {
                    assert(leaf_add(child_at(ch, m[j].0), m[j].1, d) is Some);
                }
            }
        }
    }
}

impl TreeNode {
    /// Whether a document holding the plain value `v` at this node's field
    /// can be added here: see `leaf_add`.
    pub fn leaf_accepts(&self, v: &JsonValue) -> (r: bool)
        ensures
            forall|d: (u64, JsonView)| r == (#[trigger] leaf_add(self@, v@, d) is Some),
    {
        match v {
            JsonValue::Number(n) => match n.as_i64() {
                Some(_) => match self {
                    TreeNode::Null => true,
                    TreeNode::IntLeaf(_) => true,
                    _ => false,
                },
                None => match self {
                    TreeNode::Null => true,
                    TreeNode::FloatLeaf(_) => true,
                    _ => false,
                },
            },
            JsonValue::Bool(_) => match self {
                TreeNode::Null => true,
                TreeNode::BoolLeaf(_) => true,
                _ => false,
            },
            JsonValue::String(_) => match self {
                TreeNode::Null => true,
                TreeNode::StringLeaf(_) => true,
                _ => false,
            },
            JsonValue::Array(_) => match self {
                TreeNode::Null => true,
                TreeNode::VecLeaf(_) => true,
                _ => false,
            },
            JsonValue::Null => true,
            JsonValue::Object(_) => false,
        }
    }

    /// Whether flattened document `v` can be added to this node: see
    /// `tree_add`.
    pub fn accepts(&self, v: &JsonValue) -> (r: bool)
        requires
            v@ matches JsonView::Object(m) ==> keys_distinct(m),
        ensures
            forall|d: (u64, JsonView)| r == (#[trigger] tree_add(self@, v@, d) is Some),
    {
        match v {
            JsonValue::Object(map) => {
                let ghost m = view_pairs(map@);
                let empty: Vec<(String, TreeNode)> = Vec::new();
                let ch: &Vec<(String, TreeNode)> = match self {
                    TreeNode::Null => &empty,
                    TreeNode::Branch(c) => c,
                    _ => {
                        return false;
                    },
                };
                let ghost cv = view_fields(ch@);
                proof {
                    lemma_view_pairs_len(map@);
                    lemma_view_fields(ch@);
                    if self@ is Null {
                        assert(cv =~= Seq::<(Seq<char>, TreeView)>::empty());
                    }
                    assert forall|d: (u64, JsonView)| #[trigger] fields_add(cv, m, d) is Some <==> forall|j: int|
                        0 <= j < m.len() ==> (#[trigger] leaf_add(child_at(cv, m[j].0), m[j].1, d)) is Some by {
                        lemma_fields_add_some(cv, m, d);
                    }
                }
                let mut j: usize = 0;
                while j < map.len()
                    invariant
                        j <= map@.len(),
                        m == view_pairs(map@),
                        m.len() == map@.len(),
                        forall|q: int| 0 <= q < map@.len() ==> #[trigger] m[q] == (map@[q].0@, map@[q].1@),
                        cv == view_fields(ch@),
                        forall|q: int| 0 <= q < ch@.len() ==> #[trigger] cv[q] == (ch@[q].0@, view_tree(ch@[q].1)),
                        forall|q: int, d: (u64, JsonView)| 0 <= q < j ==> (#[trigger] leaf_add(child_at(cv, m[q].0), m[q].1, d)) is Some,
                        keys_distinct(m),
                        v@ == JsonView::Object(m),
                        (self@ is Null && cv == Seq::<(Seq<char>, TreeView)>::empty()) || self@ == TreeView::Branch(cv),
                    decreases map@.len() - j,
                {
                    let ok = match find_field(ch, &map[j].0) {
                        Some(p) => {
                            proof {
                                assert(child_at(cv, m[j as int].0) == view_tree(ch@[p as int].1));
                            }
                            ch[p].1.leaf_accepts(&map[j].1)
                        },
                        None => {
                            let null = TreeNode::Null;
                            null.leaf_accepts(&map[j].1)
                        },
                    };
                    if !ok {
                        proof {
                            assert forall|d: (u64, JsonView)| !(#[trigger] tree_add(self@, v@, d) is Some) by {
                                assert(!(leaf_add(child_at(cv, m[j as int].0), m[j as int].1, d) is Some));
                                lemma_fields_add_some(cv, m, d);
                                assert(!(fields_add(cv, m, d) is Some));
                            }
                        }
                        return false;
                    }
                    j = j + 1;
                }
                proof {
                    assert forall|d: (u64, JsonView)| #[trigger] tree_add(self@, v@, d) is Some by {
                        lemma_fields_add_some(cv, m, d);
                        assert(fields_add(cv, m, d) is Some);
                    }
                }
                true
            },
            _ => self.leaf_accepts(v),
        }
    }
}

impl TreeNode {
    /// The document that taking one out of this node (not a branch) would
    /// take: the last of its first bucket that is not empty, or the last of
    /// its list.
    fn peek_leaf(&self) -> (r: Option<&(u64, JsonValue)>)
        requires
            tree_wf(self@),
            !(self@ is Branch),
        ensures
            (match r {
                Some(d) => Some((d.0, d.1@)),
                None => None,
            }) == tree_pop(self@).0,
    {
        match self {
            TreeNode::IntLeaf(s) => match first_full_pos(s) {
                Some(p) => {
                    proof {
                        lemma_first_full(view_buckets(s@));
                        lemma_view_docs_len(s@[p as int].1@);
                    }
                    let b = &s[p].1;
                    Some(&b[b.len() - 1])
                },
                None => None,
            },
            TreeNode::FloatLeaf(s) => match first_full_pos(s) {
                Some(p) => {
                    proof {
                        lemma_first_full(view_buckets(s@));
                        lemma_view_docs_len(s@[p as int].1@);
                    }
                    let b = &s[p].1;
                    Some(&b[b.len() - 1])
                },
                None => None,
            },
            TreeNode::BoolLeaf(s) => match first_full_pos(s) {
                Some(p) => {
                    proof {
                        lemma_first_full(view_buckets(s@));
                        lemma_view_docs_len(s@[p as int].1@);
                    }
                    let b = &s[p].1;
                    Some(&b[b.len() - 1])
                },
                None => None,
            },
            TreeNode::StringLeaf(s) => match first_full_pos(s) {
                Some(p) => {
                    proof {
                        lemma_first_full(view_buckets(s@));
                        lemma_view_docs_len(s@[p as int].1@);
                    }
                    let b = &s[p].1;
                    Some(&b[b.len() - 1])
                },
                None => None,
            },
            TreeNode::VecLeaf(s) => {
                proof {
                    lemma_view_docs_len(s@);
                }
                if s.len() > 0 {
                    Some(&s[s.len() - 1])
                } else {
                    None
                }
            },
            _ => None,
        }
    }

    /// Whether this node's field holding `comp` fits it: a keyed leaf needs a
    /// key of its kind.
    fn field_fits(&self, comp: &JsonValue) -> (r: bool)
        ensures
            r == (self@ matches TreeView::Leaf(kd, _) ==> tree_key(comp@) matches Some(k) && leaf_rank(k) == kd),
    {
        match self {
            TreeNode::IntLeaf(_) => match comp {
                JsonValue::Number(n) => n.as_i64().is_some(),
                _ => false,
            },
            TreeNode::FloatLeaf(_) => match comp {
                JsonValue::Number(n) => float_bits_of(n).is_some(),
                _ => false,
            },
            TreeNode::BoolLeaf(_) => match comp {
                JsonValue::Bool(_) => true,
                _ => false,
            },
            TreeNode::StringLeaf(_) => match comp {
                JsonValue::String(_) => true,
                _ => false,
            },
            _ => true,
        }
    }

    /// Whether taking a document out of this node goes through: see `pop_ok`.
    pub fn can_remove(&self) -> (r: bool)
        requires
            tree_wf(self@),
        ensures
            r == pop_ok(self@),
    {
        match self {
            TreeNode::Branch(ch) => {
                let ghost cv = view_fields(ch@);
                proof {
                    lemma_view_fields(ch@);
                }
                if ch.len() == 0 {
                    return true;
                }
                proof {
                    assert(cv[0].1 == view_tree(ch@[0].1));
                }
                match ch[0].1.peek_leaf() {
                    None => true,
                    Some(d) => {
                        let mut i: usize = 1;
                        while i < ch.len()
                            invariant
                                1 <= i <= ch@.len(),
                                cv == view_fields(ch@),
                                self@ == TreeView::Branch(cv),
                                tree_pop(cv[0].1).0 == Some((d.0, d.1@)),
                                cv.len() == ch@.len(),
                                forall|q: int| 0 <= q < ch@.len() ==> #[trigger] cv[q] == (ch@[q].0@, view_tree(ch@[q].1)),
                                forall|q: int| 1 <= q < i ==> (#[trigger] field_of(d.1@, cv[q].0)) is Some && (cv[q].1 matches TreeView::Leaf(kd, _)
                                    ==> tree_key(field_of(d.1@, cv[q].0).unwrap()) matches Some(k) && leaf_rank(k) == kd),
                            decreases ch@.len() - i,
                        {
                            let ok = match get_field(&d.1, &ch[i].0) {
                                Some(c) => ch[i].1.field_fits(c),
                                None => false,
                            };
                            if !ok {
                                proof {
                                    assert(!fields_hold(cv, 1, d.1@)) by {
                                        assert(cv[i as int].0 == ch@[i as int].0@);
                                    }
                                }
                                return false;
                            }
                            i = i + 1;
                        }
                        true
                    },
                }
            },
            _ => true,
        }
    }
}

/// The records of one type held in a tree (see the module documentation),
/// with the last document number handed out.
pub struct TreeSpaceEntry {
    counter: u64,
    root: TreeNode,
}

/// The model of a tree entry.
pub struct TreeEntryView {
    pub counter: int,
    pub tree: TreeView,
}

impl View for TreeSpaceEntry {
    type V = TreeEntryView;

    closed spec fn view(&self) -> TreeEntryView {
        TreeEntryView { counter: self.counter as int, tree: self.root@ }
    }
}

/// A well-formed tree entry.
pub open spec fn tree_entry_wf(e: TreeEntryView) -> bool {
    tree_wf(e.tree) && 0 <= e.counter <= u64::MAX
}

/// Whether document `v` can be added to entry `e`: a number is left, and its
/// one-level flattening fits the tree.
pub open spec fn tree_entry_add_ok(e: TreeEntryView, v: JsonView) -> bool {
    e.counter < u64::MAX && tree_add(e.tree, shallow_flatten(v), ((e.counter + 1) as u64, shallow_flatten(v))) is Some
}

impl TreeSpaceEntry {
    /// The tree is well formed.
    #[verifier::type_invariant]
    spec fn tree_ok(self) -> bool {
        tree_wf(self.root@)
    }

    /// An entry with no documents.
    pub fn new() -> (r: TreeSpaceEntry)
        ensures
            r@ == (TreeEntryView { counter: 0, tree: TreeView::Null }),
            tree_entry_wf(r@),
    {
        TreeSpaceEntry { counter: 0, root: TreeNode::Null }
    }

    /// Whether document `obj` can be added: see `tree_entry_add_ok`.
    pub fn can_add(&self, obj: &JsonValue) -> (r: bool)
        ensures
            r == tree_entry_add_ok(self@, obj@),
    {
        proof {
            use_type_invariant(self);
        }
        if self.counter == 18446744073709551615u64 {
            return false;
        }
        let flat = flatten(obj.copy());
        self.root.accepts(&flat)
    }

    /// Adds document `obj`, flattened by one level, as the next document.
    pub fn add(&mut self, obj: JsonValue)
        requires
            tree_entry_add_ok(old(self)@, obj@),
        ensures
            tree_entry_wf(final(self)@),
            final(self)@ == (TreeEntryView {
                counter: old(self)@.counter + 1,
                tree: tree_add(
                    old(self)@.tree,
                    shallow_flatten(obj@),
                    ((old(self)@.counter + 1) as u64, shallow_flatten(obj@)),
                ).unwrap(),
            }),
    {
        proof {
            use_type_invariant(&*self);
        }
        let flat = flatten(obj);
        let mut root = TreeNode::Null;
        std::mem::swap(&mut root, &mut self.root);
        let x = self.counter + 1;
        root.add(&flat, x);
        self.counter = x;
        self.root = root;
    }

    /// The first document (see `tree_first`), with its nesting rebuilt.
    pub fn get(&self) -> (r: Option<JsonValue>)
        ensures
            r matches Some(v) ==> tree_first(self@.tree) matches Some(d) && v@ == shallow_deflatten(d.1),
            r is None ==> tree_first(self@.tree) is None,
    {
        match self.root.get() {
            Some(d) => Some(deflatten(d.1)),
            None => None,
        }
    }

    /// All documents in order (see `tree_all`), each with its nesting
    /// rebuilt.
    pub fn get_all(&self) -> (r: Vec<JsonValue>)
        ensures
            r@.len() == tree_all(self@.tree).len(),
            forall|i: int| 0 <= i < r@.len() ==> (#[trigger] r@[i])@ == shallow_deflatten(tree_all(self@.tree)[i].1),
    {
        let docs = self.root.get_all();
        values_of_docs(docs)
    }

    /// Whether taking a document out goes through: see `pop_ok`.
    pub fn can_remove(&self) -> (r: bool)
        ensures
            r == pop_ok(self@.tree),
    {
        proof {
            use_type_invariant(self);
        }
        self.root.can_remove()
    }

    /// Takes a document out (see `tree_pop`) and returns it with its nesting
    /// rebuilt.
    pub fn remove(&mut self) -> (r: Option<JsonValue>)
        requires
            pop_ok(old(self)@.tree),
        ensures
            tree_entry_wf(final(self)@),
            final(self)@ == (TreeEntryView { counter: old(self)@.counter, tree: tree_pop(old(self)@.tree).1 }),
            r matches Some(v) ==> tree_pop(old(self)@.tree).0 matches Some(d) && v@ == shallow_deflatten(d.1),
            r is None ==> tree_pop(old(self)@.tree).0 is None,
    {
        proof {
            use_type_invariant(&*self);
        }
        let mut root = TreeNode::Null;
        std::mem::swap(&mut root, &mut self.root);
        let r = root.remove_helper();
        self.root = root;
        match r {
            Some(d) => Some(deflatten(d.1)),
            None => None,
        }
    }

    /// Takes every document that `get_all` lists out, leaving the entry
    /// empty, and returns them in that order with their nesting rebuilt.
    /// Taking all documents empties the entry, as taking all records of a
    /// type empties it in the object space; the record counter is kept.
    pub fn remove_all(&mut self) -> (r: Vec<JsonValue>)
        ensures
            tree_entry_wf(final(self)@),
            final(self)@ == (TreeEntryView { counter: old(self)@.counter, tree: TreeView::Null }),
            r@.len() == tree_all(old(self)@.tree).len(),
            forall|i: int| 0 <= i < r@.len() ==> (#[trigger] r@[i])@ == shallow_deflatten(tree_all(old(self)@.tree)[i].1),
    {
        proof {
            use_type_invariant(&*self);
        }
        let docs = self.root.get_all();
        self.root = TreeNode::Null;
        values_of_docs(docs)
    }
}

/// The node a lookup of `field` reads: the field of that name of a branch,
/// or the node itself.
pub open spec fn select_field(t: TreeView, field: Seq<char>) -> TreeView {
    match t {
        TreeView::Branch(ch) => child_at(ch, field),
        _ => t,
    }
}

/// Whether a range lookup of `field` with keys of kind `kd` goes through:
/// the node is empty or a leaf of that kind, or a branch with that field,
/// which is empty or a leaf of that kind.
pub open spec fn range_lookup_ok(t: TreeView, field: Seq<char>, kd: int) -> bool {
    match t {
        TreeView::Null => true,
        TreeView::Leaf(k2, _) => k2 == kd,
        TreeView::Branch(ch) => first_pos(ch, field) is Some && match child_at(ch, field) {
            TreeView::Null => true,
            TreeView::Leaf(k2, _) => k2 == kd,
            _ => false,
        },
        TreeView::List(_) => false,
    }
}

/// The first document of the first bucket in `r` that is not empty, in the
/// node a lookup of `field` reads.
pub open spec fn tree_first_in(t: TreeView, field: Seq<char>, r: RangeView) -> Option<(u64, JsonView)> {
    match select_field(t, field) {
        TreeView::Leaf(_, s) => match first_full_in(s, r) {
            Some(p) => Some(s[p].1[0]),
            None => None,
        },
        _ => None,
    }
}

/// The documents of the buckets in `r`, in the node a lookup of `field`
/// reads.
pub open spec fn tree_all_in(t: TreeView, field: Seq<char>, r: RangeView) -> Seq<(u64, JsonView)> {
    match select_field(t, field) {
        TreeView::Leaf(_, s) => docs_in_range(s, r),
        _ => Seq::empty(),
    }
}

/// A leaf after taking the last document of its first bucket in `r` that is
/// not empty; that document.
pub open spec fn leaf_pop_in(t: TreeView, r: RangeView) -> (Option<(u64, JsonView)>, TreeView) {
    match t {
        TreeView::Leaf(kd, s) => match first_full_in(s, r) {
            Some(p) => (Some(s[p].1.last()), TreeView::Leaf(kd, s.update(p, (s[p].0, s[p].1.drop_last())))),
            None => (None, t),
        },
        _ => (None, t),
    }
}

/// Taking a document in range out of a node: out of the leaf a lookup of
/// `field` reads, and then out of every field of a branch.
pub open spec fn tree_pop_in(t: TreeView, field: Seq<char>, r: RangeView) -> (Option<(u64, JsonView)>, TreeView) {
    match t {
        TreeView::Branch(ch) => match first_pos(ch, field) {
            Some(p) => {
                let (res, c2) = leaf_pop_in(ch[p].1, r);
                let ch2 = ch.update(p, (ch[p].0, c2));
                match res {
                    Some(d) => (Some(d), TreeView::Branch(fields_retain(ch2, 0, d))),
                    None => (None, TreeView::Branch(ch2)),
                }
            },
            None => (None, t),
        },
        _ => leaf_pop_in(t, r),
    }
}

/// Whether taking a document in range out of node `t` goes through: from a
/// branch, the document taken has every field.
pub open spec fn pop_in_ok(t: TreeView, field: Seq<char>, r: RangeView) -> bool {
    match t {
        TreeView::Branch(ch) => match first_pos(ch, field) {
            Some(p) => match leaf_pop_in(ch[p].1, r).0 {
                Some(d) => fields_hold(ch.update(p, (ch[p].0, leaf_pop_in(ch[p].1, r).1)), 0, d.1),
                None => true,
            },
            None => true,
        },
        _ => true,
    }
}

/// A key type of the tree's keyed leaves.
pub trait TreeKey: IndexKey {
    /// The rank of this kind of key.
    spec fn tree_kind() -> int;

    proof fn lemma_tree_kind(k: &Self)
        ensures
            leaf_rank(k.leaf()) == Self::tree_kind(),
    ;

    /// The buckets of `node`, if it is a leaf of this kind.
    fn leaf_of(node: &TreeNode) -> (r: Option<&Vec<(Self, Vec<(u64, JsonValue)>)>>)
        ensures
            r matches Some(s) ==> node@ == TreeView::Leaf(Self::tree_kind(), view_buckets(s@)),
            r is None ==> !(node@ matches TreeView::Leaf(kd, _) && kd == Self::tree_kind()),
    ;

    /// The buckets of `node`, taken out, if it is a leaf of this kind.
    fn unwrap_leaf(node: TreeNode) -> (r: Option<Vec<(Self, Vec<(u64, JsonValue)>)>>)
        ensures
            r matches Some(s) ==> node@ == TreeView::Leaf(Self::tree_kind(), view_buckets(s@)),
            r is None ==> !(node@ matches TreeView::Leaf(kd, _) && kd == Self::tree_kind()),
    ;

    /// The leaf of this kind holding buckets `s`.
    fn wrap_leaf(s: Vec<(Self, Vec<(u64, JsonValue)>)>) -> (r: TreeNode)
        ensures
            r@ == TreeView::Leaf(Self::tree_kind(), view_buckets(s@)),
    ;
}

impl TreeKey for i64 {
    open spec fn tree_kind() -> int {
        0
    }

    proof fn lemma_tree_kind(k: &i64) {
    }

    fn leaf_of(node: &TreeNode) -> (r: Option<&Vec<(i64, Vec<(u64, JsonValue)>)>>) {
        match node {
            TreeNode::IntLeaf(s) => Some(s),
            _ => None,
        }
    }

    fn unwrap_leaf(node: TreeNode) -> (r: Option<Vec<(i64, Vec<(u64, JsonValue)>)>>) {
        match node {
            TreeNode::IntLeaf(s) => Some(s),
            _ => None,
        }
    }

    fn wrap_leaf(s: Vec<(i64, Vec<(u64, JsonValue)>)>) -> (r: TreeNode) {
        TreeNode::IntLeaf(s)
    }
}

impl TreeKey for FloatKey {
    open spec fn tree_kind() -> int {
        1
    }

    proof fn lemma_tree_kind(k: &FloatKey) {
    }

    fn leaf_of(node: &TreeNode) -> (r: Option<&Vec<(FloatKey, Vec<(u64, JsonValue)>)>>) {
        match node {
            TreeNode::FloatLeaf(s) => Some(s),
            _ => None,
        }
    }

    fn unwrap_leaf(node: TreeNode) -> (r: Option<Vec<(FloatKey, Vec<(u64, JsonValue)>)>>) {
        match node {
            TreeNode::FloatLeaf(s) => Some(s),
            _ => None,
        }
    }

    fn wrap_leaf(s: Vec<(FloatKey, Vec<(u64, JsonValue)>)>) -> (r: TreeNode) {
        TreeNode::FloatLeaf(s)
    }
}

impl TreeKey for String {
    open spec fn tree_kind() -> int {
        3
    }

    proof fn lemma_tree_kind(k: &String) {
    }

    fn leaf_of(node: &TreeNode) -> (r: Option<&Vec<(String, Vec<(u64, JsonValue)>)>>) {
        match node {
            TreeNode::StringLeaf(s) => Some(s),
            _ => None,
        }
    }

    fn unwrap_leaf(node: TreeNode) -> (r: Option<Vec<(String, Vec<(u64, JsonValue)>)>>) {
        match node {
            TreeNode::StringLeaf(s) => Some(s),
            _ => None,
        }
    }

    fn wrap_leaf(s: Vec<(String, Vec<(u64, JsonValue)>)>) -> (r: TreeNode) {
        TreeNode::StringLeaf(s)
    }
}

impl TreeNode {
    /// The first document in `range` of the leaf a lookup of `field` reads:
    /// see `tree_first_in`.
    pub fn get_range_helper<K: TreeKey>(&self, field: &String, range: &KeyRange<K>) -> (r: Option<(u64, JsonValue)>)
        requires
            tree_wf(self@),
            range_lookup_ok(self@, field@, K::tree_kind()),
            select_field(self@, field@) is Leaf ==> range_ok(range.view_range()),
        ensures
            r matches Some(d) ==> tree_first_in(self@, field@, range.view_range()) == Some((d.0, d.1@)),
            r is None ==> tree_first_in(self@, field@, range.view_range()) is None,
    {
        let node: &TreeNode = match self {
            TreeNode::Branch(ch) => {
                proof {
                    lemma_view_fields(ch@);
                    lemma_first_pos_found(view_fields(ch@), field@);
                }
                match find_field(ch, field) {
                    Some(p) => &ch[p].1,
                    None => {
                        return None;
                    },
                }
            },
            _ => self,
        };
        assert(node@ == select_field(self@, field@));
        match K::leaf_of(node) {
            Some(s) => {
                let r = get_primitive_range(s, range);
                proof {
                    lemma_first_full_in(view_buckets(s@), range.view_range());
                }
                r
            },
            None => None,
        }
    }

    /// The documents in `range` of the leaf a lookup of `field` reads: see
    /// `tree_all_in`.
    pub fn get_all_range_helper<K: TreeKey>(&self, field: &String, range: &KeyRange<K>) -> (r: Vec<(u64, JsonValue)>)
        requires
            tree_wf(self@),
            range_lookup_ok(self@, field@, K::tree_kind()),
            select_field(self@, field@) is Leaf ==> range_ok(range.view_range()),
        ensures
            view_docs(r@) == tree_all_in(self@, field@, range.view_range()),
    {
        let node: &TreeNode = match self {
            TreeNode::Branch(ch) => {
                proof {
                    lemma_view_fields(ch@);
                    lemma_first_pos_found(view_fields(ch@), field@);
                }
                match find_field(ch, field) {
                    Some(p) => &ch[p].1,
                    None => {
                        assert(view_docs(Seq::<(u64, JsonValue)>::empty()) =~= Seq::<(u64, JsonView)>::empty());
                        return Vec::new();
                    },
                }
            },
            _ => self,
        };
        assert(node@ == select_field(self@, field@));
        match K::leaf_of(node) {
            Some(s) => get_all_prims_range(s, range),
            None => {
                assert(view_docs(Seq::<(u64, JsonValue)>::empty()) =~= Seq::<(u64, JsonView)>::empty());
                Vec::new()
            },
        }
    }
}

/// Takes the last document of the first bucket in `range` that is not empty
/// out of a node that is empty or a leaf of kind `K`.
fn pop_leaf_in<K: TreeKey>(node: &mut TreeNode, range: &KeyRange<K>) -> (r: Option<(u64, JsonValue)>)
    requires
        tree_wf(old(node)@),
        old(node)@ is Null || (old(node)@ matches TreeView::Leaf(kd, _) && kd == K::tree_kind()),
        old(node)@ is Leaf ==> range_ok(range.view_range()),
    ensures
        tree_wf(final(node)@),
        !(final(node)@ is Branch),
        (match r {
            Some(d) => Some((d.0, d.1@)),
            None => None,
        }) == leaf_pop_in(old(node)@, range.view_range()).0,
        final(node)@ == leaf_pop_in(old(node)@, range.view_range()).1,
{
    let mut n = TreeNode::Null;
    std::mem::swap(&mut n, node);
    let ghost before = n@;
    match K::unwrap_leaf(n) {
        Some(mut s) => {
            proof {
                lemma_first_full_in(view_buckets(s@), range.view_range());
            }
            let r = remove_primitive_range(&mut s, range);
            *node = K::wrap_leaf(s);
            proof {
                let v = view_buckets(s@);
                assert forall|q: int| 0 <= q < v.len() implies leaf_rank((#[trigger] v[q]).0) == K::tree_kind() by {
                    match first_full_in(before->Leaf_1, range.view_range()) {
                        Some(p) => {
                            assert(v[q].0 == (before->Leaf_1)[q].0);
                        },
                        None => {},
                    }
                }
            }
            r
        },
        None => None,
    }
}

/// Fields `ch` with each of the documents `docs` taken out of all fields,
/// one after another.
pub open spec fn fields_retain_all(ch: Seq<(Seq<char>, TreeView)>, docs: Seq<(u64, JsonView)>) -> Seq<(Seq<char>, TreeView)>
    decreases docs.len(),
{
    if docs.len() == 0 {
        ch
    } else {
        fields_retain(fields_retain_all(ch, docs.drop_last()), 0, docs.last())
    }
}

/// Taking a document out of fields keeps their names and node kinds, so
/// what a document needs to be taken out stays the same.

/// A leaf after taking all documents of its buckets in `r` out; those
/// documents, bucket after bucket.
pub open spec fn leaf_drain_in(t: TreeView, r: RangeView) -> (Seq<(u64, JsonView)>, TreeView) {
    match t {
        TreeView::Leaf(kd, s) => (docs_in_range(s, r), TreeView::Leaf(kd, drain_range(s, r))),
        _ => (Seq::empty(), t),
    }
}

/// Taking all documents in range out of a node: out of the leaf a lookup of
/// `field` reads, and then each out of every field of a branch.
pub open spec fn tree_drain_in(t: TreeView, field: Seq<char>, r: RangeView) -> (Seq<(u64, JsonView)>, TreeView) {
    match t {
        TreeView::Branch(ch) => match first_pos(ch, field) {
            Some(p) => {
                let (docs, c2) = leaf_drain_in(ch[p].1, r);
                let ch2 = ch.update(p, (ch[p].0, c2));
                (docs, TreeView::Branch(fields_retain_all(ch2, docs)))
            },
            None => (Seq::empty(), t),
        },
        _ => leaf_drain_in(t, r),
    }
}

/// Whether taking all documents in range out of node `t` goes through: from
/// a branch, each document taken has every field.
pub open spec fn drain_in_ok(t: TreeView, field: Seq<char>, r: RangeView) -> bool {
    match t {
        TreeView::Branch(ch) => match first_pos(ch, field) {
            Some(p) => forall|i: int|
                0 <= i < leaf_drain_in(ch[p].1, r).0.len() ==> fields_hold(
                    ch.update(p, (ch[p].0, leaf_drain_in(ch[p].1, r).1)),
                    0,
                    (#[trigger] leaf_drain_in(ch[p].1, r).0[i]).1,
                ),
            None => true,
        },
        _ => true,
    }
}

/// Takes all documents of the buckets in `range` out of a node that is
/// empty or a leaf of kind `K`.
fn drain_leaf_in<K: TreeKey>(node: &mut TreeNode, range: &KeyRange<K>) -> (r: Vec<(u64, JsonValue)>)
    requires
        tree_wf(old(node)@),
        old(node)@ is Null || (old(node)@ matches TreeView::Leaf(kd, _) && kd == K::tree_kind()),
        old(node)@ is Leaf ==> range_ok(range.view_range()),
    ensures
        tree_wf(final(node)@),
        !(final(node)@ is Branch),
        view_docs(r@) == leaf_drain_in(old(node)@, range.view_range()).0,
        final(node)@ == leaf_drain_in(old(node)@, range.view_range()).1,
{
    let mut n = TreeNode::Null;
    std::mem::swap(&mut n, node);
    let ghost before = n@;
    match K::unwrap_leaf(n) {
        Some(mut s) => {
            let r = remove_all_prims_range(&mut s, range);
            *node = K::wrap_leaf(s);
            proof {
                let v = view_buckets(s@);
                assert forall|q: int| 0 <= q < v.len() implies leaf_rank((#[trigger] v[q]).0) == K::tree_kind() by {
                    assert(v[q].0 == (before->Leaf_1)[q].0);
                }
            }
            r
        },
        None => {
            assert(view_docs(Seq::<(u64, JsonValue)>::empty()) =~= Seq::<(u64, JsonView)>::empty());
            Vec::new()
        },
    }
}

impl TreeNode {
    /// Takes a document in `range` out: see `tree_pop_in`.
    pub fn remove_range_helper<K: TreeKey>(&mut self, field: &String, range: &KeyRange<K>) -> (r: Option<(u64, JsonValue)>)
        requires
            tree_wf(old(self)@),
            range_lookup_ok(old(self)@, field@, K::tree_kind()),
            select_field(old(self)@, field@) is Leaf ==> range_ok(range.view_range()),
            pop_in_ok(old(self)@, field@, range.view_range()),
        ensures
            tree_wf(final(self)@),
            (match r {
                Some(d) => Some((d.0, d.1@)),
                None => None,
            }) == tree_pop_in(old(self)@, field@, range.view_range()).0,
            final(self)@ == tree_pop_in(old(self)@, field@, range.view_range()).1,
    {
        match self {
            TreeNode::Branch(ch) => {
                let ghost v0 = view_fields(ch@);
                proof {
                    lemma_view_fields(ch@);
                    lemma_first_pos_found(v0, field@);
                }
                match find_field(ch, field) {
                    Some(p) => {
                        let mut slot = (String::new(), TreeNode::Null);
                        std::mem::swap(&mut slot, &mut ch[p]);
                        proof {
                            assert(view_tree(slot.1) == v0[p as int].1);
                            assert(tree_wf(v0[p as int].1));
                        }
                        let r = pop_leaf_in(&mut slot.1, range);
                        let ghost c2 = view_tree(slot.1);
                        ch.set(p, slot);
                        let ghost v1 = view_fields(ch@);
                        proof {
                            lemma_view_fields(ch@);
                            assert(v1 =~= v0.update(p as int, (v0[p as int].0, c2)));
                            assert forall|q: int| 0 <= q < v1.len() implies !((#[trigger] v1[q]).1 is Branch) && tree_wf(v1[q].1) by {
                                if q != p {
                                    assert(v1[q] == v0[q]);
                                }
                            }
                        }
                        match r {
                            Some(d) => {
                                remove_value_arc(ch, 0, &d);
                                Some(d)
                            },
                            None => None,
                        }
                    },
                    None => None,
                }
            },
            _ => pop_leaf_in(self, range),
        }
    }

    /// Takes all documents in `range` out: see `tree_drain_in`.
    pub fn remove_all_range_helper<K: TreeKey>(&mut self, field: &String, range: &KeyRange<K>) -> (r: Vec<(u64, JsonValue)>)
        requires
            tree_wf(old(self)@),
            range_lookup_ok(old(self)@, field@, K::tree_kind()),
            select_field(old(self)@, field@) is Leaf ==> range_ok(range.view_range()),
            drain_in_ok(old(self)@, field@, range.view_range()),
        ensures
            tree_wf(final(self)@),
            view_docs(r@) == tree_drain_in(old(self)@, field@, range.view_range()).0,
            final(self)@ == tree_drain_in(old(self)@, field@, range.view_range()).1,
    {
        match self {
            TreeNode::Branch(ch) => {
                let ghost v0 = view_fields(ch@);
                proof {
                    lemma_view_fields(ch@);
                    lemma_first_pos_found(v0, field@);
                }
                match find_field(ch, field) {
                    Some(p) => {
                        let mut slot = (String::new(), TreeNode::Null);
                        std::mem::swap(&mut slot, &mut ch[p]);
                        proof {
                            assert(view_tree(slot.1) == v0[p as int].1);
                            assert(tree_wf(v0[p as int].1));
                        }
                        let docs = drain_leaf_in(&mut slot.1, range);
                        let ghost c2 = view_tree(slot.1);
                        ch.set(p, slot);
                        let ghost v1 = view_fields(ch@);
                        let ghost dv = view_docs(docs@);
                        proof {
                            lemma_view_fields(ch@);
                            lemma_view_docs_len(docs@);
                            assert(v1 =~= v0.update(p as int, (v0[p as int].0, c2)));
                            assert forall|q: int| 0 <= q < v1.len() implies !((#[trigger] v1[q]).1 is Branch) && tree_wf(v1[q].1) by {
                                if q != p {
                                    assert(v1[q] == v0[q]);
                                }
                            }
                            assert(dv.take(0) =~= Seq::<(u64, JsonView)>::empty());
                        }
                        let mut i: usize = 0;
                        while i < docs.len()
                            invariant
                                i <= docs@.len(),
                                dv == view_docs(docs@),
                                dv.len() == docs@.len(),
                                forall|q: int| 0 <= q < docs@.len() ==> #[trigger] dv[q] == (docs@[q].0, docs@[q].1@),
                                forall|q: int| 0 <= q < dv.len() ==> fields_hold(v1, 0, (#[trigger] dv[q]).1),
                                tree_wf(TreeView::Branch(view_fields(ch@))),
                                view_fields(ch@) == fields_retain_all(v1, dv.take(i as int)),
                                view_fields(ch@).len() == v1.len(),
                                forall|q: int| 0 <= q < v1.len() ==> (#[trigger] view_fields(ch@)[q]).0 == v1[q].0,
                            decreases docs@.len() - i,
                        {
                            let ghost cur = view_fields(ch@);
                            proof {
                                assert(dv.take(i + 1).drop_last() =~= dv.take(i as int));
                                assert(dv.take(i + 1).last() == dv[i as int]);
                                assert(fields_hold(v1, 0, dv[i as int].1));
                                assert forall|j: int| 0 <= j < cur.len() implies (#[trigger] field_of(dv[i as int].1, cur[j].0)) is Some && (cur[j].1 matches TreeView::Leaf(kd, _)
                                    ==> tree_key(field_of(dv[i as int].1, cur[j].0).unwrap()) matches Some(k) && leaf_rank(k) == kd) by {
                                    assert(field_of(dv[i as int].1, v1[j].0) is Some);
                                    lemma_kinds_kept(v1, dv.take(i as int), j);
                                }
                            }
                            remove_value_arc(ch, 0, &docs[i]);
                            proof {
                                lemma_view_fields(ch@);
                                assert forall|q: int| 0 <= q < v1.len() implies (#[trigger] view_fields(ch@)[q]).0 == v1[q].0 by {
                                    assert(view_fields(ch@)[q].0 == cur[q].0);
                                }
                            }
                            i = i + 1;
                        }
                        proof {
                            assert(dv.take(docs@.len() as int) =~= dv);
                        }
                        docs
                    },
                    None => {
                        assert(view_docs(Seq::<(u64, JsonValue)>::empty()) =~= Seq::<(u64, JsonView)>::empty());
                        Vec::new()
                    },
                }
            },
            _ => drain_leaf_in(self, range),
        }
    }
}

/// Taking documents out of fields keeps each field's node kind.
proof fn lemma_kinds_kept(ch: Seq<(Seq<char>, TreeView)>, docs: Seq<(u64, JsonView)>, j: int)
    requires
        0 <= j < ch.len(),
    ensures
        fields_retain_all(ch, docs).len() == ch.len(),
        fields_retain_all(ch, docs)[j].0 == ch[j].0,
        ch[j].1 matches TreeView::Leaf(kd, _) ==> fields_retain_all(ch, docs)[j].1 matches TreeView::Leaf(kd2, _) && kd2 == kd,
        !(ch[j].1 is Leaf) ==> !(fields_retain_all(ch, docs)[j].1 is Leaf),
    decreases docs.len(),
{
    if docs.len() > 0 {
        lemma_kinds_kept(ch, docs.drop_last(), j);
    }
}

impl TreeSpaceEntry {
    /// A copy of the first document whose `field` lies in `range`: see
    /// `tree_first_in`.
    pub fn get_range<K: TreeKey>(&self, field: &String, range: &KeyRange<K>) -> (r: Option<JsonValue>)
        requires
            range_lookup_ok(self@.tree, field@, K::tree_kind()),
            select_field(self@.tree, field@) is Leaf ==> range_ok(range.view_range()),
        ensures
            r matches Some(v) ==> tree_first_in(self@.tree, field@, range.view_range()) matches Some(d) && v@ == shallow_deflatten(d.1),
            r is None ==> tree_first_in(self@.tree, field@, range.view_range()) is None,
    {
        proof {
            use_type_invariant(self);
        }
        match self.root.get_range_helper(field, range) {
            Some(d) => Some(deflatten(d.1)),
            None => None,
        }
    }

    /// Copies of the documents whose `field` lies in `range`: see
    /// `tree_all_in`.
    pub fn get_all_range<K: TreeKey>(&self, field: &String, range: &KeyRange<K>) -> (r: Vec<JsonValue>)
        requires
            range_lookup_ok(self@.tree, field@, K::tree_kind()),
            select_field(self@.tree, field@) is Leaf ==> range_ok(range.view_range()),
        ensures
            r@.len() == tree_all_in(self@.tree, field@, range.view_range()).len(),
            forall|i: int| 0 <= i < r@.len() ==> (#[trigger] r@[i])@ == shallow_deflatten(tree_all_in(self@.tree, field@, range.view_range())[i].1),
    {
        proof {
            use_type_invariant(self);
        }
        let docs = self.root.get_all_range_helper(field, range);
        values_of_docs(docs)
    }

    /// Takes a document whose `field` lies in `range` out and returns it: see
    /// `tree_pop_in`.
    pub fn remove_range<K: TreeKey>(&mut self, field: &String, range: &KeyRange<K>) -> (r: Option<JsonValue>)
        requires
            range_lookup_ok(old(self)@.tree, field@, K::tree_kind()),
            select_field(old(self)@.tree, field@) is Leaf ==> range_ok(range.view_range()),
            pop_in_ok(old(self)@.tree, field@, range.view_range()),
        ensures
            tree_entry_wf(final(self)@),
            final(self)@ == (TreeEntryView {
                counter: old(self)@.counter,
                tree: tree_pop_in(old(self)@.tree, field@, range.view_range()).1,
            }),
            r matches Some(v) ==> tree_pop_in(old(self)@.tree, field@, range.view_range()).0 matches Some(d) && v@ == shallow_deflatten(d.1),
            r is None ==> tree_pop_in(old(self)@.tree, field@, range.view_range()).0 is None,
    {
        proof {
            use_type_invariant(&*self);
        }
        let mut root = TreeNode::Null;
        std::mem::swap(&mut root, &mut self.root);
        let r = root.remove_range_helper(field, range);
        self.root = root;
        match r {
            Some(d) => Some(deflatten(d.1)),
            None => None,
        }
    }

    /// Takes all documents whose `field` lies in `range` out and returns
    /// them: see `tree_drain_in`.
    pub fn remove_all_range<K: TreeKey>(&mut self, field: &String, range: &KeyRange<K>) -> (r: Vec<JsonValue>)
        requires
            range_lookup_ok(old(self)@.tree, field@, K::tree_kind()),
            select_field(old(self)@.tree, field@) is Leaf ==> range_ok(range.view_range()),
            drain_in_ok(old(self)@.tree, field@, range.view_range()),
        ensures
            tree_entry_wf(final(self)@),
            final(self)@ == (TreeEntryView {
                counter: old(self)@.counter,
                tree: tree_drain_in(old(self)@.tree, field@, range.view_range()).1,
            }),
            r@.len() == tree_drain_in(old(self)@.tree, field@, range.view_range()).0.len(),
            forall|i: int| 0 <= i < r@.len() ==> (#[trigger] r@[i])@ == shallow_deflatten(tree_drain_in(old(self)@.tree, field@, range.view_range()).0[i].1),
    {
        proof {
            use_type_invariant(&*self);
        }
        let mut root = TreeNode::Null;
        std::mem::swap(&mut root, &mut self.root);
        let docs = root.remove_all_range_helper(field, range);
        self.root = root;
        values_of_docs(docs)
    }
}

/// The stored documents, in order, each with its nesting rebuilt.
fn values_of_docs(docs: Vec<(u64, JsonValue)>) -> (r: Vec<JsonValue>)
    ensures
        r@.len() == docs@.len(),
        forall|i: int| 0 <= i < r@.len() ==> (#[trigger] r@[i])@ == shallow_deflatten(view_docs(docs@)[i].1),
{
    proof {
        lemma_view_docs_len(docs@);
    }
    let mut out: Vec<JsonValue> = Vec::new();
    let mut i: usize = 0;
    while i < docs.len()
        invariant
            i <= docs@.len(),
            view_docs(docs@).len() == docs@.len(),
            forall|q: int| 0 <= q < docs@.len() ==> #[trigger] view_docs(docs@)[q] == (docs@[q].0, docs@[q].1@),
            out@.len() == i,
            forall|q: int| 0 <= q < i ==> (#[trigger] out@[q])@ == shallow_deflatten(view_docs(docs@)[q].1),
        decreases docs@.len() - i,
    {
        out.push(deflatten(docs[i].1.copy()));
        i = i + 1;
    }
    out
}

impl TreeKey for bool {
    open spec fn tree_kind() -> int {
        2
    }

    proof fn lemma_tree_kind(k: &bool) {
    }

    fn leaf_of(node: &TreeNode) -> (r: Option<&Vec<(bool, Vec<(u64, JsonValue)>)>>) {
        match node {
            TreeNode::BoolLeaf(s) => Some(s),
            _ => None,
        }
    }

    fn unwrap_leaf(node: TreeNode) -> (r: Option<Vec<(bool, Vec<(u64, JsonValue)>)>>) {
        match node {
            TreeNode::BoolLeaf(s) => Some(s),
            _ => None,
        }
    }

    fn wrap_leaf(s: Vec<(bool, Vec<(u64, JsonValue)>)>) -> (r: TreeNode) {
        TreeNode::BoolLeaf(s)
    }
}

/// The range holding exactly key `k`.
pub open spec fn key_only(k: LeafKey) -> RangeView {
    RangeView { start: crate::ordered::BoundView::Included(k), end: crate::ordered::BoundView::Included(k) }
}

fn single_key<K: TreeKey>(key: &K) -> (r: KeyRange<K>)
    ensures
        r.view_range() == key_only(key.leaf()),
        range_ok(r.view_range()),
{
    proof {
        crate::ordered::lemma_leaf_order(key.leaf(), key.leaf(), key.leaf());
    }
    KeyRange { start: KeyBound::Included(key.copy_key()), end: KeyBound::Included(key.copy_key()) }
}

impl TreeSpaceEntry {
    /// A copy of the first document whose `field` holds `key`.
    pub fn get_key<K: TreeKey>(&self, field: &String, key: &K) -> (r: Option<JsonValue>)
        requires
            range_lookup_ok(self@.tree, field@, K::tree_kind()),
        ensures
            r matches Some(v) ==> tree_first_in(self@.tree, field@, key_only(key.leaf())) matches Some(d) && v@ == shallow_deflatten(d.1),
            r is None ==> tree_first_in(self@.tree, field@, key_only(key.leaf())) is None,
    {
        proof {
            use_type_invariant(self);
        }
        let range = single_key(key);
        self.get_range(field, &range)
    }

    /// Copies of the documents whose `field` holds `key`.
    pub fn get_all_key<K: TreeKey>(&self, field: &String, key: &K) -> (r: Vec<JsonValue>)
        requires
            range_lookup_ok(self@.tree, field@, K::tree_kind()),
        ensures
            r@.len() == tree_all_in(self@.tree, field@, key_only(key.leaf())).len(),
            forall|i: int| 0 <= i < r@.len() ==> (#[trigger] r@[i])@ == shallow_deflatten(tree_all_in(self@.tree, field@, key_only(key.leaf()))[i].1),
    {
        proof {
            use_type_invariant(self);
        }
        let range = single_key(key);
        self.get_all_range(field, &range)
    }

    /// Takes a document whose `field` holds `key` out and returns it.
    pub fn remove_key<K: TreeKey>(&mut self, field: &String, key: &K) -> (r: Option<JsonValue>)
        requires
            range_lookup_ok(old(self)@.tree, field@, K::tree_kind()),
            pop_in_ok(old(self)@.tree, field@, key_only(key.leaf())),
        ensures
            tree_entry_wf(final(self)@),
            final(self)@ == (TreeEntryView {
                counter: old(self)@.counter,
                tree: tree_pop_in(old(self)@.tree, field@, key_only(key.leaf())).1,
            }),
            r matches Some(v) ==> tree_pop_in(old(self)@.tree, field@, key_only(key.leaf())).0 matches Some(d) && v@ == shallow_deflatten(d.1),
            r is None ==> tree_pop_in(old(self)@.tree, field@, key_only(key.leaf())).0 is None,
    {
        proof {
            use_type_invariant(&*self);
        }
        let range = single_key(key);
        self.remove_range(field, &range)
    }

    /// Takes all documents whose `field` holds `key` out and returns them.
    pub fn remove_all_key<K: TreeKey>(&mut self, field: &String, key: &K) -> (r: Vec<JsonValue>)
        requires
            range_lookup_ok(old(self)@.tree, field@, K::tree_kind()),
            drain_in_ok(old(self)@.tree, field@, key_only(key.leaf())),
        ensures
            tree_entry_wf(final(self)@),
            final(self)@ == (TreeEntryView {
                counter: old(self)@.counter,
                tree: tree_drain_in(old(self)@.tree, field@, key_only(key.leaf())).1,
            }),
            r@.len() == tree_drain_in(old(self)@.tree, field@, key_only(key.leaf())).0.len(),
            forall|i: int| 0 <= i < r@.len() ==> (#[trigger] r@[i])@ == shallow_deflatten(tree_drain_in(old(self)@.tree, field@, key_only(key.leaf())).0[i].1),
    {
        proof {
            use_type_invariant(&*self);
        }
        let range = single_key(key);
        self.remove_all_range(field, &range)
    }
}

/// A plain value (a number, a boolean, a string or an array) added as
/// document `d` to an empty node: the node then gives `d` first, and taking
/// `d` out leaves no document.
proof fn lemma_leaf_add_single(v: JsonView, d: (u64, JsonView))
    requires
        match v {
            JsonView::Number(_) => true,
            JsonView::Bool(_) => true,
            JsonView::Str(_) => true,
            JsonView::Array(_) => true,
            _ => false,
        },
    ensures
        leaf_add(TreeView::Null, v, d) is Some,
        tree_first(leaf_add(TreeView::Null, v, d).unwrap()) == Some(d),
        tree_pop(leaf_add(TreeView::Null, v, d).unwrap()).0 == Some(d),
        tree_all(tree_pop(leaf_add(TreeView::Null, v, d).unwrap()).1).len() == 0,
{
    let e = Seq::<(LeafKey, Seq<(u64, JsonView)>)>::empty();
    if !(v is Array) {
        let k = tree_key(v).unwrap();
        let s = docs_push(e, k, d);
        assert(key_slot(e, k) == 0);
        assert(key_at(e, k) is None);
        assert(s =~= seq![(k, seq![d])]);
        assert(s.drop_first() =~= e);
        assert(first_full(s) == Some(0int));
        let s2 = pop_doc(s).1;
        assert(seq![d].drop_last() =~= Seq::<(u64, JsonView)>::empty());
        assert(s[0].1 == seq![d]);
        assert(s2 =~= seq![(k, Seq::<(u64, JsonView)>::empty())]);
        assert(s2.drop_first() =~= e);
        assert(all_docs(s2.drop_first()) == Seq::<(u64, JsonView)>::empty());
        assert(all_docs(s2) =~= Seq::<(u64, JsonView)>::empty());
    } else {
        assert(seq![d].drop_last() =~= Seq::<(u64, JsonView)>::empty());
    }
}

/// Adding the fields of an object with distinct keys to no fields: the
/// first field made is that of the object's first key, holding what adding
/// its value to an empty node makes.
proof fn lemma_fields_add_first(m: Seq<(Seq<char>, JsonView)>, d: (u64, JsonView), j: int)
    requires
        keys_distinct(m),
        1 <= j <= m.len(),
        fields_add(Seq::empty(), m, d) is Some,
    ensures
        fields_add(Seq::empty(), m.take(j), d) matches Some(c) && c.len() > 0
            && c[0] == (m[0].0, leaf_add(TreeView::Null, m[0].1, d).unwrap()),
    decreases j,
{
    let e = Seq::<(Seq<char>, TreeView)>::empty();
    lemma_fields_add_prefix(e, m, d, j);
    let mj = m.take(j);
    if j == 1 {
        assert(mj.drop_last() =~= Seq::<(Seq<char>, JsonView)>::empty());
        assert(mj.last() == m[0]);
        assert(fields_add(e, mj.drop_last(), d) == Some(e));
        assert(first_pos(e, m[0].0) is None);
        let n = leaf_add(TreeView::Null, m[0].1, d);
        assert(fields_add(e, mj, d) == Some(e.push((m[0].0, n.unwrap()))));
    } else {
        lemma_fields_add_first(m, d, j - 1);
        assert(mj.drop_last() =~= m.take(j - 1));
        assert(mj.last() == m[j - 1]);
        let c = fields_add(e, m.take(j - 1), d).unwrap();
        let k = m[j - 1].0;
        assert(m[0].0 != k);
        lemma_first_pos_found(c, k);
        match first_pos(c, k) {
            Some(p) => {
                assert(p != 0);
                let n = leaf_add(c[p].1, m[j - 1].1, d);
                assert(fields_add(e, mj, d) == Some(c.update(p, (k, n.unwrap()))));
            },
            None => {
                let n = leaf_add(TreeView::Null, m[j - 1].1, d);
                assert(fields_add(e, mj, d) == Some(c.push((k, n.unwrap()))));
            },
        }
    }
}

/// A plain document (a number, a boolean, a string or an array), added to
/// an empty node, is what reading the node gives and what taking from it
/// gives back, leaving no document.
pub proof fn law_tree_read_after_add(v: JsonView, x: u64)
    requires
        match v {
            JsonView::Number(_) => true,
            JsonView::Bool(_) => true,
            JsonView::Str(_) => true,
            JsonView::Array(_) => true,
            _ => false,
        },
    ensures
        tree_add(TreeView::Null, v, (x, v)) is Some,
        tree_first(tree_add(TreeView::Null, v, (x, v)).unwrap()) == Some((x, v)),
        tree_pop(tree_add(TreeView::Null, v, (x, v)).unwrap()).0 == Some((x, v)),
        tree_all(tree_pop(tree_add(TreeView::Null, v, (x, v)).unwrap()).1).len() == 0,
{
    lemma_leaf_add_single(v, (x, v));
}

/// A flattened object whose first field holds a plain value (a number, a
/// boolean, a string or an array), added to an empty node, is what reading
/// the node gives and what taking from it gives back.
pub proof fn law_tree_read_after_add_object(m: Seq<(Seq<char>, JsonView)>, x: u64)
    requires
        keys_distinct(m),
        m.len() > 0,
        match m[0].1 {
            JsonView::Number(_) => true,
            JsonView::Bool(_) => true,
            JsonView::Str(_) => true,
            JsonView::Array(_) => true,
            _ => false,
        },
        tree_add(TreeView::Null, JsonView::Object(m), (x, JsonView::Object(m))) is Some,
    ensures
        tree_first(tree_add(TreeView::Null, JsonView::Object(m), (x, JsonView::Object(m))).unwrap())
            == Some((x, JsonView::Object(m))),
        tree_pop(tree_add(TreeView::Null, JsonView::Object(m), (x, JsonView::Object(m))).unwrap()).0
            == Some((x, JsonView::Object(m))),
{
    let d = (x, JsonView::Object(m));
    lemma_fields_add_first(m, d, m.len() as int);
    assert(m.take(m.len() as int) =~= m);
    lemma_leaf_add_single(m[0].1, d);
}

/// A plain value: a number, a boolean, a string or an array.
pub open spec fn plain_value(v: JsonView) -> bool {
    match v {
        JsonView::Number(_) => true,
        JsonView::Bool(_) => true,
        JsonView::Str(_) => true,
        JsonView::Array(_) => true,
        _ => false,
    }
}

/// Dropping the last pair keeps keys distinct.
proof fn lemma_keys_distinct_drop_last<V>(m: Seq<(Seq<char>, V)>)
    requires
        keys_distinct(m),
        m.len() > 0,
    ensures
        keys_distinct(m.drop_last()),
        forall|p: int| 0 <= p < m.len() - 1 ==> (#[trigger] m.drop_last()[p]).0 != m.last().0,
{
    let m0 = m.drop_last();
    assert forall|a: int, b: int| 0 <= a < b < m0.len() implies (#[trigger] m0[a]).0 != (#[trigger] m0[b]).0 by {
        assert(m0[a] == m[a] && m0[b] == m[b]);
    }
    assert forall|p: int| 0 <= p < m.len() - 1 implies (#[trigger] m0[p]).0 != m.last().0 by {
        assert(m0[p] == m[p]);
    }
}

/// Flattening an object with distinct keys and no object-valued field by
/// one level changes nothing.
proof fn lemma_shallow_fields_plain(m: Seq<(Seq<char>, JsonView)>)
    requires
        keys_distinct(m),
        forall|j: int| 0 <= j < m.len() ==> !((#[trigger] m[j]).1 is Object),
    ensures
        shallow_fields(m) == m,
    decreases m.len(),
{
    if m.len() > 0 {
        let m0 = m.drop_last();
        lemma_keys_distinct_drop_last(m);
        assert forall|j: int| 0 <= j < m0.len() implies !((#[trigger] m0[j]).1 is Object) by {
            assert(m0[j] == m[j]);
        }
        lemma_shallow_fields_plain(m0);
        assert(!(m.last().1 is Object)) by {
            assert(m.last() == m[m.len() - 1]);
        }
        assert(key_pos(m0, m.last().0) is None);
        assert(assoc_insert(m0, m.last().0, m.last().1) =~= m);
    }
}

/// Reading pairs with distinct, dot-free keys keeps them all, in order, and
/// makes no group.
proof fn lemma_collect_plain(m: Seq<(Seq<char>, JsonView)>)
    requires
        keys_distinct(m),
        forall|j: int| 0 <= j < m.len() ==> dot_free((#[trigger] m[j]).0),
    ensures
        collect(m).0 == m,
        collect(m).1 == Seq::<(Seq<char>, Seq<(Seq<char>, JsonView)>)>::empty(),
    decreases m.len(),
{
    if m.len() > 0 {
        let m0 = m.drop_last();
        lemma_keys_distinct_drop_last(m);
        assert forall|j: int| 0 <= j < m0.len() implies dot_free((#[trigger] m0[j]).0) by {
            assert(m0[j] == m[j]);
        }
        lemma_collect_plain(m0);
        let k = m.last().0;
        assert(dot_free(k)) by {
            assert(m.last() == m[m.len() - 1]);
        }
        lemma_first_dot(k);
        assert(split_once(k) is None);
        lemma_first_pos_found(m0, k);
        assert(first_pos(m0, k) is None);
        assert(m0.push((k, m.last().1)) =~= m);
    }
}

/// A plain document added to a new tree entry is what `get` then gives
/// back.
pub proof fn law_tree_entry_get_after_add(x: JsonView)
    requires
        plain_value(x),
    ensures
        tree_entry_add_ok(TreeEntryView { counter: 0, tree: TreeView::Null }, x),
        tree_first(tree_add(TreeView::Null, shallow_flatten(x), (1u64, shallow_flatten(x))).unwrap()) matches Some(d)
            && shallow_deflatten(d.1) == x,
{
    lemma_leaf_add_single(x, (1u64, x));
}

/// An object with distinct, dot-free keys whose fields hold no object,
/// the first of them a plain value, added to a new tree entry, is what
/// `get` then gives back.
pub proof fn law_tree_entry_get_after_add_object(m: Seq<(Seq<char>, JsonView)>)
    requires
        keys_distinct(m),
        m.len() > 0,
        plain_value(m[0].1),
        forall|j: int| 0 <= j < m.len() ==> dot_free((#[trigger] m[j]).0) && !(m[j].1 is Object),
    ensures
        tree_entry_add_ok(TreeEntryView { counter: 0, tree: TreeView::Null }, JsonView::Object(m)),
        tree_first(
            tree_add(
                TreeView::Null,
                shallow_flatten(JsonView::Object(m)),
                (1u64, shallow_flatten(JsonView::Object(m))),
            ).unwrap(),
        ) matches Some(d) && shallow_deflatten(d.1) == JsonView::Object(m),
{
    let x = JsonView::Object(m);
    let d = (1u64, x);
    lemma_shallow_fields_plain(m);
    assert(shallow_flatten(x) == x);
    let e = Seq::<(Seq<char>, TreeView)>::empty();
    assert forall|j: int| 0 <= j < m.len() implies (#[trigger] leaf_add(child_at(e, m[j].0), m[j].1, d)) is Some by {
        assert(child_at(e, m[j].0) == TreeView::Null);
        assert(!(m[j].1 is Object));
    }
    lemma_fields_add_some(e, m, d);
    law_tree_read_after_add_object(m, 1u64);
    lemma_collect_plain(m);
    assert(unflatten(m) == m);
}

/// The key document `v` holds at field `key`, if it has that field.
pub open spec fn held_key(v: JsonView, key: Seq<char>) -> Option<LeafKey> {
    match field_of(v, key) {
        Some(c) => tree_key(c),
        None => None,
    }
}

/// Every document in the buckets of leaf `t` holds, at field `key`, the key
/// of its bucket.
pub open spec fn leaf_placed(t: TreeView, key: Seq<char>) -> bool {
    match t {
        TreeView::Leaf(_, s) => forall|p: int, q: int|
            0 <= p < s.len() && 0 <= q < s[p].1.len() ==> held_key((#[trigger] s[p].1[q]).1, key) == Some(s[p].0),
        _ => true,
    }
}

/// Every document of leaf `t` numbered `d.0` is `d` itself.
pub open spec fn numbered_once(t: TreeView, d: (u64, JsonView)) -> bool {
    match t {
        TreeView::Leaf(_, s) => forall|p: int, q: int|
            0 <= p < s.len() && 0 <= q < s[p].1.len() && (#[trigger] s[p].1[q]).0 == d.0 ==> s[p].1[q] == d,
        _ => true,
    }
}

/// Node `t` with the documents numbered `x` taken out of each of its
/// buckets, or out of its list.
pub open spec fn node_without(t: TreeView, x: u64) -> TreeView {
    match t {
        TreeView::Leaf(kd, s) => TreeView::Leaf(
            kd,
            s.map_values(|b: (LeafKey, Seq<(u64, JsonView)>)| (b.0, without_doc(b.1, x))),
        ),
        TreeView::List(s) => TreeView::List(without_doc(s, x)),
        _ => t,
    }
}

/// Whether node `t` holds a document numbered `x`.
pub open spec fn node_holds(t: TreeView, x: u64) -> bool {
    match t {
        TreeView::Leaf(_, s) => exists|p: int, q: int|
            0 <= p < s.len() && 0 <= q < s[p].1.len() && (#[trigger] s[p].1[q]).0 == x,
        TreeView::List(s) => exists|q: int| 0 <= q < s.len() && (#[trigger] s[q]).0 == x,
        _ => false,
    }
}

/// `without_doc` leaves no document numbered `x`, and changes nothing when
/// there is none.
proof fn lemma_without_doc(b: Seq<(u64, JsonView)>, x: u64)
    ensures
        forall|q: int| 0 <= q < without_doc(b, x).len() ==> (#[trigger] without_doc(b, x)[q]).0 != x,
        (forall|q: int| 0 <= q < b.len() ==> (#[trigger] b[q]).0 != x) ==> without_doc(b, x) == b,
    decreases b.len(),
{
    if b.len() > 0 {
        let t = b.drop_last();
        lemma_without_doc(t, x);
        let wt = without_doc(t, x);
        if b.last().0 != x {
            assert forall|q: int| 0 <= q < wt.push(b.last()).len() implies (#[trigger] wt.push(b.last())[q]).0 != x by {
                if q < wt.len() {
                    assert(wt.push(b.last())[q] == wt[q]);
                }
            }
        }
        if forall|q: int| 0 <= q < b.len() ==> (#[trigger] b[q]).0 != x {
            assert forall|q: int| 0 <= q < t.len() implies (#[trigger] t[q]).0 != x by {
                assert(t[q] == b[q]);
            }
            assert(b.last() == b[b.len() - 1]);
            assert(t.push(b.last()) =~= b);
        }
    }
}

/// Taking document `d` out of one node, by the key it holds there, takes
/// every document numbered `d.0` out of the node.
proof fn lemma_node_retain(t: TreeView, key: Seq<char>, d: (u64, JsonView))
    requires
        tree_wf(t),
        leaf_placed(t, key),
        numbered_once(t, d),
        field_of(d.1, key) is Some,
        t matches TreeView::Leaf(kd, _) ==> tree_key(field_of(d.1, key).unwrap()) matches Some(k) && leaf_rank(k) == kd,
    ensures
        node_retain(t, field_of(d.1, key).unwrap(), d.0) == node_without(t, d.0),
{
    match t {
        TreeView::Leaf(kd, s) => {
            let k = tree_key(field_of(d.1, key).unwrap()).unwrap();
            let x = d.0;
            lemma_key_slot(s, k);
            let w = s.map_values(|b: (LeafKey, Seq<(u64, JsonView)>)| (b.0, without_doc(b.1, x)));
            assert forall|p: int| 0 <= p < s.len() && s[p].0 != k implies without_doc(s[p].1, x) == s[p].1 by {
                assert forall|q: int| 0 <= q < s[p].1.len() implies (#[trigger] s[p].1[q]).0 != x by {
                    if s[p].1[q].0 == x {
                        assert(s[p].1[q] == d);
                        assert(held_key(s[p].1[q].1, key) == Some(s[p].0));
                    }
                }
                lemma_without_doc(s[p].1, x);
            }
            match key_at(s, k) {
                Some(p0) => {
                    assert(s.update(p0, (s[p0].0, without_doc(s[p0].1, x))) =~= w) by {
                        assert forall|p: int| 0 <= p < s.len() && p != p0 implies s[p].0 != k by {
                            if s[p].0 == k {
                                assert(key_at(s, k) == Some(p));
                            }
                        }
                    }
                },
                None => {
                    assert(s =~= w);
                },
            }
        },
        TreeView::List(s) => {},
        _ => {},
    }
}

/// Taking document `d` out of the fields `ch` from position `from` on,
/// where each leaf holds its documents in the buckets of their keys and a
/// number names one document: every document numbered `d.0` leaves each of
/// those fields, from every bucket and list, the other documents keep their
/// order, and the field names, bucket keys and earlier fields stay as they
/// were.
pub proof fn law_remove_value_arc(ch: Seq<(Seq<char>, TreeView)>, from: int, d: (u64, JsonView))
    requires
        0 <= from,
        tree_wf(TreeView::Branch(ch)),
        fields_hold(ch, from, d.1),
        forall|i: int| from <= i < ch.len() ==> leaf_placed((#[trigger] ch[i]).1, ch[i].0) && numbered_once(ch[i].1, d),
    ensures
        fields_retain(ch, from, d).len() == ch.len(),
        forall|i: int| 0 <= i < from && i < ch.len() ==> #[trigger] fields_retain(ch, from, d)[i] == ch[i],
        forall|i: int| from <= i < ch.len() ==> #[trigger] fields_retain(ch, from, d)[i] == (ch[i].0, node_without(ch[i].1, d.0)),
        forall|i: int| from <= i < ch.len() ==> !node_holds(#[trigger] fields_retain(ch, from, d)[i].1, d.0),
{
    let r = fields_retain(ch, from, d);
    assert forall|i: int| from <= i < ch.len() implies #[trigger] r[i] == (ch[i].0, node_without(ch[i].1, d.0))
        && !node_holds(r[i].1, d.0) by {
        assert(field_of(d.1, ch[i].0) is Some);
        assert(tree_wf(ch[i].1));
        lemma_node_retain(ch[i].1, ch[i].0, d);
        match ch[i].1 {
            TreeView::Leaf(kd, s) => {
                let w = s.map_values(|b: (LeafKey, Seq<(u64, JsonView)>)| (b.0, without_doc(b.1, d.0)));
                assert forall|p: int, q: int| 0 <= p < w.len() && 0 <= q < w[p].1.len() implies (#[trigger] w[p].1[q]).0 != d.0 by {
                    lemma_without_doc(s[p].1, d.0);
                }
            },
            TreeView::List(s) => {
                lemma_without_doc(s, d.0);
            },
            _ => {},
        }
    }
}

/// Lookup of a tree entry's documents by a range of values of a field, for
/// keys of type `U`.
pub trait RangeEntry<U: TreeKey>: View<V = TreeEntryView> {
    fn get_range(&self, field: &String, range: &KeyRange<U>) -> (r: Option<JsonValue>)
        requires
            range_lookup_ok(self@.tree, field@, U::tree_kind()),
            select_field(self@.tree, field@) is Leaf ==> range_ok(range.view_range()),
        ensures
            r matches Some(v) ==> tree_first_in(self@.tree, field@, range.view_range()) matches Some(d) && v@ == shallow_deflatten(d.1),
            r is None ==> tree_first_in(self@.tree, field@, range.view_range()) is None,
    ;

    fn get_all_range(&self, field: &String, range: &KeyRange<U>) -> (r: Vec<JsonValue>)
        requires
            range_lookup_ok(self@.tree, field@, U::tree_kind()),
            select_field(self@.tree, field@) is Leaf ==> range_ok(range.view_range()),
        ensures
            r@.len() == tree_all_in(self@.tree, field@, range.view_range()).len(),
            forall|i: int| 0 <= i < r@.len() ==> (#[trigger] r@[i])@ == shallow_deflatten(tree_all_in(self@.tree, field@, range.view_range())[i].1),
    ;

    fn remove_range(&mut self, field: &String, range: &KeyRange<U>) -> (r: Option<JsonValue>)
        requires
            range_lookup_ok(old(self)@.tree, field@, U::tree_kind()),
            select_field(old(self)@.tree, field@) is Leaf ==> range_ok(range.view_range()),
            pop_in_ok(old(self)@.tree, field@, range.view_range()),
        ensures
            tree_entry_wf(final(self)@),
            final(self)@ == (TreeEntryView {
                counter: old(self)@.counter,
                tree: tree_pop_in(old(self)@.tree, field@, range.view_range()).1,
            }),
            r matches Some(v) ==> tree_pop_in(old(self)@.tree, field@, range.view_range()).0 matches Some(d) && v@ == shallow_deflatten(d.1),
            r is None ==> tree_pop_in(old(self)@.tree, field@, range.view_range()).0 is None,
    ;

    fn remove_all_range(&mut self, field: &String, range: &KeyRange<U>) -> (r: Vec<JsonValue>)
        requires
            range_lookup_ok(old(self)@.tree, field@, U::tree_kind()),
            select_field(old(self)@.tree, field@) is Leaf ==> range_ok(range.view_range()),
            drain_in_ok(old(self)@.tree, field@, range.view_range()),
        ensures
            tree_entry_wf(final(self)@),
            final(self)@ == (TreeEntryView {
                counter: old(self)@.counter,
                tree: tree_drain_in(old(self)@.tree, field@, range.view_range()).1,
            }),
            r@.len() == tree_drain_in(old(self)@.tree, field@, range.view_range()).0.len(),
            forall|i: int| 0 <= i < r@.len() ==> (#[trigger] r@[i])@ == shallow_deflatten(tree_drain_in(old(self)@.tree, field@, range.view_range()).0[i].1),
    ;
}

/// Lookup of a tree entry's documents by the value of a field, for keys of
/// type `U`.
pub trait ExactKeyEntry<U: TreeKey>: View<V = TreeEntryView> {
    fn get_key(&self, field: &String, key: &U) -> (r: Option<JsonValue>)
        requires
            range_lookup_ok(self@.tree, field@, U::tree_kind()),
        ensures
            r matches Some(v) ==> tree_first_in(self@.tree, field@, key_only(key.leaf())) matches Some(d) && v@ == shallow_deflatten(d.1),
            r is None ==> tree_first_in(self@.tree, field@, key_only(key.leaf())) is None,
    ;

    fn get_all_key(&self, field: &String, key: &U) -> (r: Vec<JsonValue>)
        requires
            range_lookup_ok(self@.tree, field@, U::tree_kind()),
        ensures
            r@.len() == tree_all_in(self@.tree, field@, key_only(key.leaf())).len(),
            forall|i: int| 0 <= i < r@.len() ==> (#[trigger] r@[i])@ == shallow_deflatten(tree_all_in(self@.tree, field@, key_only(key.leaf()))[i].1),
    ;

    fn remove_key(&mut self, field: &String, key: &U) -> (r: Option<JsonValue>)
        requires
            range_lookup_ok(old(self)@.tree, field@, U::tree_kind()),
            pop_in_ok(old(self)@.tree, field@, key_only(key.leaf())),
        ensures
            tree_entry_wf(final(self)@),
            final(self)@ == (TreeEntryView {
                counter: old(self)@.counter,
                tree: tree_pop_in(old(self)@.tree, field@, key_only(key.leaf())).1,
            }),
            r matches Some(v) ==> tree_pop_in(old(self)@.tree, field@, key_only(key.leaf())).0 matches Some(d) && v@ == shallow_deflatten(d.1),
            r is None ==> tree_pop_in(old(self)@.tree, field@, key_only(key.leaf())).0 is None,
    ;

    fn remove_all_key(&mut self, field: &String, key: &U) -> (r: Vec<JsonValue>)
        requires
            range_lookup_ok(old(self)@.tree, field@, U::tree_kind()),
            drain_in_ok(old(self)@.tree, field@, key_only(key.leaf())),
        ensures
            tree_entry_wf(final(self)@),
            final(self)@ == (TreeEntryView {
                counter: old(self)@.counter,
                tree: tree_drain_in(old(self)@.tree, field@, key_only(key.leaf())).1,
            }),
            r@.len() == tree_drain_in(old(self)@.tree, field@, key_only(key.leaf())).0.len(),
            forall|i: int| 0 <= i < r@.len() ==> (#[trigger] r@[i])@ == shallow_deflatten(tree_drain_in(old(self)@.tree, field@, key_only(key.leaf())).0[i].1),
    ;
}

impl RangeEntry<i64> for TreeSpaceEntry {
    fn get_range(&self, field: &String, range: &KeyRange<i64>) -> (r: Option<JsonValue>) {
        self.get_range(field, range)
    }

    fn get_all_range(&self, field: &String, range: &KeyRange<i64>) -> (r: Vec<JsonValue>) {
        self.get_all_range(field, range)
    }

    fn remove_range(&mut self, field: &String, range: &KeyRange<i64>) -> (r: Option<JsonValue>) {
        self.remove_range(field, range)
    }

    fn remove_all_range(&mut self, field: &String, range: &KeyRange<i64>) -> (r: Vec<JsonValue>) {
        self.remove_all_range(field, range)
    }
}

impl RangeEntry<FloatKey> for TreeSpaceEntry {
    fn get_range(&self, field: &String, range: &KeyRange<FloatKey>) -> (r: Option<JsonValue>) {
        self.get_range(field, range)
    }

    fn get_all_range(&self, field: &String, range: &KeyRange<FloatKey>) -> (r: Vec<JsonValue>) {
        self.get_all_range(field, range)
    }

    fn remove_range(&mut self, field: &String, range: &KeyRange<FloatKey>) -> (r: Option<JsonValue>) {
        self.remove_range(field, range)
    }

    fn remove_all_range(&mut self, field: &String, range: &KeyRange<FloatKey>) -> (r: Vec<JsonValue>) {
        self.remove_all_range(field, range)
    }
}

impl RangeEntry<String> for TreeSpaceEntry {
    fn get_range(&self, field: &String, range: &KeyRange<String>) -> (r: Option<JsonValue>) {
        self.get_range(field, range)
    }

    fn get_all_range(&self, field: &String, range: &KeyRange<String>) -> (r: Vec<JsonValue>) {
        self.get_all_range(field, range)
    }

    fn remove_range(&mut self, field: &String, range: &KeyRange<String>) -> (r: Option<JsonValue>) {
        self.remove_range(field, range)
    }

    fn remove_all_range(&mut self, field: &String, range: &KeyRange<String>) -> (r: Vec<JsonValue>) {
        self.remove_all_range(field, range)
    }
}

impl ExactKeyEntry<i64> for TreeSpaceEntry {
    fn get_key(&self, field: &String, key: &i64) -> (r: Option<JsonValue>) {
        self.get_key(field, key)
    }

    fn get_all_key(&self, field: &String, key: &i64) -> (r: Vec<JsonValue>) {
        self.get_all_key(field, key)
    }

    fn remove_key(&mut self, field: &String, key: &i64) -> (r: Option<JsonValue>) {
        self.remove_key(field, key)
    }

    fn remove_all_key(&mut self, field: &String, key: &i64) -> (r: Vec<JsonValue>) {
        self.remove_all_key(field, key)
    }
}

impl ExactKeyEntry<String> for TreeSpaceEntry {
    fn get_key(&self, field: &String, key: &String) -> (r: Option<JsonValue>) {
        self.get_key(field, key)
    }

    fn get_all_key(&self, field: &String, key: &String) -> (r: Vec<JsonValue>) {
        self.get_all_key(field, key)
    }

    fn remove_key(&mut self, field: &String, key: &String) -> (r: Option<JsonValue>) {
        self.remove_key(field, key)
    }

    fn remove_all_key(&mut self, field: &String, key: &String) -> (r: Vec<JsonValue>) {
        self.remove_all_key(field, key)
    }
}

impl ExactKeyEntry<bool> for TreeSpaceEntry {
    fn get_key(&self, field: &String, key: &bool) -> (r: Option<JsonValue>) {
        self.get_key(field, key)
    }

    fn get_all_key(&self, field: &String, key: &bool) -> (r: Vec<JsonValue>) {
        self.get_all_key(field, key)
    }

    fn remove_key(&mut self, field: &String, key: &bool) -> (r: Option<JsonValue>) {
        self.remove_key(field, key)
    }

    fn remove_all_key(&mut self, field: &String, key: &bool) -> (r: Vec<JsonValue>) {
        self.remove_all_key(field, key)
    }
}

impl ExactKeyEntry<FloatKey> for TreeSpaceEntry {
    fn get_key(&self, field: &String, key: &FloatKey) -> (r: Option<JsonValue>) {
        self.get_key(field, key)
    }

    fn get_all_key(&self, field: &String, key: &FloatKey) -> (r: Vec<JsonValue>) {
        self.get_all_key(field, key)
    }

    fn remove_key(&mut self, field: &String, key: &FloatKey) -> (r: Option<JsonValue>) {
        self.remove_key(field, key)
    }

    fn remove_all_key(&mut self, field: &String, key: &FloatKey) -> (r: Vec<JsonValue>) {
        self.remove_all_key(field, key)
    }
}


/// The buckets of the leaf a lookup of `field` reads in node `t` (none when
/// it reads no leaf).
pub open spec fn looked_up_buckets(t: TreeView, field: Seq<char>) -> Seq<(LeafKey, Seq<(u64, JsonView)>)> {
    match select_field(t, field) {
        TreeView::Leaf(_, s) => s,
        _ => Seq::empty(),
    }
}

/// Whether some bucket of `s` whose key lies in `r` holds a document.
pub open spec fn some_in_range(s: Seq<(LeafKey, Seq<(u64, JsonView)>)>, r: RangeView) -> bool {
    exists|p: int| 0 <= p < s.len() && in_range(#[trigger] s[p].0, r) && s[p].1.len() > 0
}

/// Whether document `d` sits in a bucket of `s` whose key lies in `r`.
pub open spec fn in_bucket_in_range(s: Seq<(LeafKey, Seq<(u64, JsonView)>)>, r: RangeView, d: (u64, JsonView)) -> bool {
    exists|p: int, q: int| 0 <= p < s.len() && in_range(s[p].0, r) && 0 <= q < s[p].1.len() && #[trigger] s[p].1[q] == d
}

/// How many documents the buckets of `s` whose key lies in `r` hold.
pub open spec fn in_range_size(s: Seq<(LeafKey, Seq<(u64, JsonView)>)>, r: RangeView) -> nat
    decreases s.len(),
{
    if s.len() == 0 {
        0
    } else {
        in_range_size(s.drop_last(), r) + if in_range(s.last().0, r) {
            s.last().1.len()
        } else {
            0
        }
    }
}

/// Adding a bucket in front adds its documents when its key is in range.
proof fn lemma_in_range_size_front(s: Seq<(LeafKey, Seq<(u64, JsonView)>)>, r: RangeView)
    requires
        s.len() > 0,
    ensures
        in_range_size(s, r) == in_range_size(s.drop_first(), r) + if in_range(s[0].0, r) {
            s[0].1.len()
        } else {
            0
        },
    decreases s.len(),
{
    if s.len() > 1 {
        lemma_in_range_size_front(s.drop_last(), r);
        assert(s.drop_last().drop_first() =~= s.drop_first().drop_last());
        assert(s.drop_first().last() == s.last());
    } else {
        assert(s.drop_last() =~= Seq::<(LeafKey, Seq<(u64, JsonView)>)>::empty());
        assert(s.drop_first() =~= Seq::<(LeafKey, Seq<(u64, JsonView)>)>::empty());
    }
}

/// `docs_in_range` holds as many documents as the buckets in range.
proof fn lemma_docs_in_range_len(s: Seq<(LeafKey, Seq<(u64, JsonView)>)>, r: RangeView)
    ensures
        docs_in_range(s, r).len() == in_range_size(s, r),
    decreases s.len(),
{
    if s.len() > 0 {
        lemma_docs_in_range_len(s.drop_first(), r);
        lemma_in_range_size_front(s, r);
    }
}

/// The documents of the buckets in range are exactly those of `docs_in_range`.
proof fn lemma_docs_in_range(s: Seq<(LeafKey, Seq<(u64, JsonView)>)>, r: RangeView)
    ensures
        forall|i: int| 0 <= i < docs_in_range(s, r).len() ==> in_bucket_in_range(s, r, #[trigger] docs_in_range(s, r)[i]),
        forall|p: int, q: int|
            0 <= p < s.len() && in_range(s[p].0, r) && 0 <= q < s[p].1.len() ==> docs_in_range(s, r).contains(
                #[trigger] s[p].1[q],
            ),
    decreases s.len(),
{
    if s.len() > 0 {
        let t = s.drop_first();
        lemma_docs_in_range(t, r);
        let head = if in_range(s[0].0, r) {
            s[0].1
        } else {
            Seq::<(u64, JsonView)>::empty()
        };
        assert(docs_in_range(s, r) == head + docs_in_range(t, r));
        assert forall|i: int| 0 <= i < docs_in_range(s, r).len() implies in_bucket_in_range(s, r, #[trigger] docs_in_range(s, r)[i]) by {
            if i < head.len() {
                assert(s[0].1[i] == docs_in_range(s, r)[i]);
            } else {
                let j = i - head.len();
                assert(docs_in_range(s, r)[i] == docs_in_range(t, r)[j]);
                assert(in_bucket_in_range(t, r, docs_in_range(t, r)[j]));
                let (p, q) = choose|p: int, q: int|
                    0 <= p < t.len() && in_range(t[p].0, r) && 0 <= q < t[p].1.len() && #[trigger] t[p].1[q]
                        == docs_in_range(t, r)[j];
                assert(t[p] == s[p + 1]);
                assert(s[p + 1].1[q] == docs_in_range(s, r)[i]);
            }
        }
        assert forall|p: int, q: int|
            0 <= p < s.len() && in_range(s[p].0, r) && 0 <= q < s[p].1.len() implies docs_in_range(s, r).contains(
                #[trigger] s[p].1[q],
            ) by {
            if p == 0 {
                assert(docs_in_range(s, r)[q] == s[0].1[q]);
            } else {
                assert(t[p - 1] == s[p]);
                assert(docs_in_range(t, r).contains(t[p - 1].1[q]));
                let j = choose|j: int| 0 <= j < docs_in_range(t, r).len() && docs_in_range(t, r)[j] == t[p - 1].1[q];
                assert(docs_in_range(s, r)[head.len() + j] == s[p].1[q]);
            }
        }
    }
}

/// `first_full_in` finds the first bucket in range that holds a document,
/// and finds none when there is none.
proof fn lemma_first_full_in_first(s: Seq<(LeafKey, Seq<(u64, JsonView)>)>, r: RangeView)
    ensures
        first_full_in(s, r) matches Some(p) ==> 0 <= p < s.len() && in_range(s[p].0, r) && s[p].1.len() > 0
            && forall|p2: int| 0 <= p2 < p && in_range(#[trigger] s[p2].0, r) ==> s[p2].1.len() == 0,
        first_full_in(s, r) is None <==> !some_in_range(s, r),
    decreases s.len(),
{
    if s.len() > 0 {
        let t = s.drop_first();
        lemma_first_full_in_first(t, r);
        if first_full_in(s, r) is None {
            assert forall|p: int| 0 <= p < s.len() && in_range(#[trigger] s[p].0, r) implies s[p].1.len() == 0 by {
                if p > 0 {
                    assert(t[p - 1] == s[p]);
                }
            }
        } else {
            let p = first_full_in(s, r).unwrap();
            assert(in_range(s[p].0, r) && s[p].1.len() > 0) by {
                if p > 0 {
                    assert(t[p - 1] == s[p]);
                }
            }
            assert forall|p2: int| 0 <= p2 < p && in_range(#[trigger] s[p2].0, r) implies s[p2].1.len() == 0 by {
                if p2 > 0 {
                    assert(t[p2 - 1] == s[p2]);
                }
            }
        }
    }
}

/// What a range means: a key lies in it when it is not before an included
/// start, is after an excluded start, is not after an included end and is
/// before an excluded end. So an excluded end is never in the range, and an
/// included one is.
pub proof fn law_range_bounds(k: LeafKey, r: RangeView)
    ensures
        r.start matches BoundView::Excluded(a) ==> !in_range(a, r),
        r.end matches BoundView::Excluded(b) ==> !in_range(b, r),
        in_range(k, RangeView { start: BoundView::Included(k), end: BoundView::Included(k) }),
        in_range(k, r) ==> (r.start matches BoundView::Included(a) ==> k == a || leaf_lt(a, k)),
        in_range(k, r) ==> (r.start matches BoundView::Excluded(a) ==> leaf_lt(a, k)),
        in_range(k, r) ==> (r.end matches BoundView::Included(b) ==> k == b || leaf_lt(k, b)),
        in_range(k, r) ==> (r.end matches BoundView::Excluded(b) ==> leaf_lt(k, b)),
{
    lemma_leaf_order(k, k, k);
    match r.start {
        BoundView::Included(a) => lemma_leaf_order(k, a, k),
        BoundView::Excluded(a) => lemma_leaf_order(a, a, a),
        BoundView::Unbounded => {},
    }
    match r.end {
        BoundView::Included(b) => lemma_leaf_order(k, b, k),
        BoundView::Excluded(b) => lemma_leaf_order(b, b, b),
        BoundView::Unbounded => {},
    }
}

/// Reading all documents whose `field` lies in a range gives every document
/// of every bucket of that field whose key lies in the range, as many as
/// those buckets hold, and only those: a document at an excluded end, or
/// outside the range, is not given.
pub proof fn law_read_all_in_range(t: TreeView, field: Seq<char>, r: RangeView)
    ensures
        tree_all_in(t, field, r).len() == in_range_size(looked_up_buckets(t, field), r),
        forall|i: int| 0 <= i < tree_all_in(t, field, r).len() ==> in_bucket_in_range(looked_up_buckets(t, field), r, #[trigger] tree_all_in(t, field, r)[i]),
        forall|p: int, q: int|
            0 <= p < looked_up_buckets(t, field).len() && in_range(looked_up_buckets(t, field)[p].0, r) && 0 <= q
                < looked_up_buckets(t, field)[p].1.len() ==> tree_all_in(t, field, r).contains(
                #[trigger] looked_up_buckets(t, field)[p].1[q],
            ),
{
    lemma_docs_in_range(looked_up_buckets(t, field), r);
    lemma_docs_in_range_len(looked_up_buckets(t, field), r);
}

/// Reading one document whose `field` lies in a range gives the first
/// document of the first bucket in range that holds one, and nothing
/// exactly when no bucket in range holds a document.
pub proof fn law_read_in_range(t: TreeView, field: Seq<char>, r: RangeView)
    ensures
        tree_first_in(t, field, r) matches Some(d) ==> exists|p: int|
            0 <= p < looked_up_buckets(t, field).len() && in_range(#[trigger] looked_up_buckets(t, field)[p].0, r)
                && looked_up_buckets(t, field)[p].1.len() > 0 && looked_up_buckets(t, field)[p].1[0] == d
                && forall|p2: int| 0 <= p2 < p && in_range(#[trigger] looked_up_buckets(t, field)[p2].0, r)
                ==> looked_up_buckets(t, field)[p2].1.len() == 0,
        tree_first_in(t, field, r) is None <==> !some_in_range(looked_up_buckets(t, field), r),
{
    let s = looked_up_buckets(t, field);
    lemma_first_full_in_first(s, r);
    if let Some(p) = first_full_in(s, r) {
        if select_field(t, field) is Leaf {
            assert(in_range(s[p].0, r));
        }
    }
}

/// Taking one document whose `field` lies in a range takes the last document
/// of the first bucket in range that holds one; when no bucket in range
/// holds a document it takes nothing and changes nothing. From a leaf, the
/// buckets out of range stay as they were.
pub proof fn law_take_in_range(t: TreeView, field: Seq<char>, r: RangeView)
    ensures
        tree_pop_in(t, field, r).0 matches Some(d) ==> exists|p: int|
            0 <= p < looked_up_buckets(t, field).len() && in_range(#[trigger] looked_up_buckets(t, field)[p].0, r)
                && looked_up_buckets(t, field)[p].1.len() > 0 && looked_up_buckets(t, field)[p].1.last() == d
                && forall|p2: int| 0 <= p2 < p && in_range(#[trigger] looked_up_buckets(t, field)[p2].0, r)
                ==> looked_up_buckets(t, field)[p2].1.len() == 0,
        tree_pop_in(t, field, r).0 is None <==> !some_in_range(looked_up_buckets(t, field), r),
        tree_pop_in(t, field, r).0 is None ==> tree_pop_in(t, field, r).1 == t,
        t matches TreeView::Leaf(kd, s) ==> (tree_pop_in(t, field, r).1 matches TreeView::Leaf(kd2, s2) && kd2 == kd
            && s2.len() == s.len() && forall|p: int|
            0 <= p < s.len() && !in_range(#[trigger] s[p].0, r) ==> s2[p] == s[p]),
{
    let s = looked_up_buckets(t, field);
    lemma_first_full_in_first(s, r);
    match t {
        TreeView::Branch(ch) => {
            if let Some(p) = first_pos(ch, field) {
                lemma_first_pos_found(ch, field);
                let c = ch[p].1;
                if leaf_pop_in(c, r).0 is None {
                    assert(ch.update(p, (ch[p].0, leaf_pop_in(c, r).1)) =~= ch);
                }
            }
        },
        _ => {},
    }
}

/// Taking all documents whose `field` lies in a range takes every document
/// of every bucket in range of that field, and only those. From a leaf, the
/// buckets in range are emptied and those out of range (a key at an
/// excluded end among them) stay as they were.
pub proof fn law_take_all_in_range(t: TreeView, field: Seq<char>, r: RangeView)
    ensures
        tree_drain_in(t, field, r).0.len() == in_range_size(looked_up_buckets(t, field), r),
        forall|i: int| 0 <= i < tree_drain_in(t, field, r).0.len() ==> in_bucket_in_range(looked_up_buckets(t, field), r, #[trigger] tree_drain_in(t, field, r).0[i]),
        forall|p: int, q: int|
            0 <= p < looked_up_buckets(t, field).len() && in_range(looked_up_buckets(t, field)[p].0, r) && 0 <= q
                < looked_up_buckets(t, field)[p].1.len() ==> tree_drain_in(t, field, r).0.contains(
                #[trigger] looked_up_buckets(t, field)[p].1[q],
            ),
        t matches TreeView::Leaf(kd, s) ==> (tree_drain_in(t, field, r).1 matches TreeView::Leaf(kd2, s2) && kd2 == kd
            && s2.len() == s.len() && forall|p: int|
            0 <= p < s.len() ==> (#[trigger] s2[p]).0 == s[p].0 && (if in_range(s[p].0, r) {
                s2[p].1.len() == 0
            } else {
                s2[p] == s[p]
            })),
{
    let s = looked_up_buckets(t, field);
    lemma_docs_in_range(s, r);
    lemma_docs_in_range_len(s, r);
    match t {
        TreeView::Branch(ch) => {
            if let Some(p) = first_pos(ch, field) {
                lemma_first_pos_found(ch, field);
            }
        },
        _ => {},
    }
}

/// Whether document `v` holds at field `key` a key that lies in `r`.
pub open spec fn key_in_range(v: JsonView, key: Seq<char>, r: RangeView) -> bool {
    match held_key(v, key) {
        Some(k) => in_range(k, r),
        None => false,
    }
}

/// `first_pos` looks at names only.
proof fn lemma_first_pos_names(a: Seq<(Seq<char>, TreeView)>, b: Seq<(Seq<char>, TreeView)>, k: Seq<char>)
    requires
        a.len() == b.len(),
        forall|i: int| 0 <= i < a.len() ==> (#[trigger] a[i]).0 == b[i].0,
    ensures
        first_pos(a, k) == first_pos(b, k),
    decreases a.len(),
{
    if a.len() > 0 {
        assert(a[0].0 == b[0].0);
        assert forall|i: int| 0 <= i < a.drop_first().len() implies (#[trigger] a.drop_first()[i]).0 == b.drop_first()[i].0 by {
            assert(a.drop_first()[i] == a[i + 1]);
            assert(b.drop_first()[i] == b[i + 1]);
        }
        lemma_first_pos_names(a.drop_first(), b.drop_first(), k);
    }
}

/// `key_slot` is not negative.
proof fn lemma_key_slot_nonneg(s: Seq<(LeafKey, Seq<(u64, JsonView)>)>, k: LeafKey)
    ensures
        key_slot(s, k) >= 0,
    decreases s.len(),
{
    if s.len() > 0 {
        lemma_key_slot_nonneg(s.drop_first(), k);
    }
}

/// Leaf `n` has the kind `kd` and the keys of `s0`, with the buckets of
/// `s0` out of `r` unchanged and its empty buckets still empty.
pub open spec fn leaf_keeps(n: TreeView, kd: int, s0: Seq<(LeafKey, Seq<(u64, JsonView)>)>, r: RangeView) -> bool {
    match n {
        TreeView::Leaf(kd2, s2) => kd2 == kd && s2.len() == s0.len() && forall|q: int|
            0 <= q < s0.len() ==> (#[trigger] s2[q]).0 == s0[q].0 && (!in_range(s0[q].0, r) ==> s2[q] == s0[q]) && (
            s0[q].1.len() == 0 ==> s2[q].1.len() == 0),
        _ => false,
    }
}

/// Taking documents that hold a key in `r` at field `ch[p]` out of the
/// fields leaves the buckets of that field whose key is out of `r` as they
/// were, keeps its keys, and keeps empty buckets empty.
proof fn lemma_retain_all_in_range(
    ch: Seq<(Seq<char>, TreeView)>,
    docs: Seq<(u64, JsonView)>,
    p: int,
    kd: int,
    s0: Seq<(LeafKey, Seq<(u64, JsonView)>)>,
    r: RangeView,
)
    requires
        0 <= p < ch.len(),
        ch[p].1 == TreeView::Leaf(kd, s0),
        forall|i: int| 0 <= i < docs.len() ==> #[trigger] key_in_range(docs[i].1, ch[p].0, r),
    ensures
        leaf_keeps(fields_retain_all(ch, docs)[p].1, kd, s0, r),
    decreases docs.len(),
{
    if docs.len() == 0 {
        assert(leaf_keeps(ch[p].1, kd, s0, r));
    } else {
        let d0 = docs.drop_last();
        assert forall|i: int| 0 <= i < d0.len() implies #[trigger] key_in_range(d0[i].1, ch[p].0, r) by {
            assert(d0[i] == docs[i]);
        }
        lemma_retain_all_in_range(ch, d0, p, kd, s0, r);
        lemma_kinds_kept(ch, d0, p);
        let prev = fields_retain_all(ch, d0);
        assert(leaf_keeps(prev[p].1, kd, s0, r));
        let s1 = prev[p].1->Leaf_1;
        assert(prev[p].1 == TreeView::Leaf(kd, s1));
        let d = docs.last();
        assert(key_in_range(docs[docs.len() - 1].1, ch[p].0, r));
        assert(docs[docs.len() - 1] == d);
        let comp = field_of(d.1, ch[p].0).unwrap();
        let k = tree_key(comp).unwrap();
        assert(in_range(k, r));
        let now = fields_retain_all(ch, docs);
        assert(now == fields_retain(prev, 0, d));
        assert(prev[p].0 == ch[p].0);
        assert(now[p] == (prev[p].0, node_retain(prev[p].1, comp, d.0)));
        let s2 = docs_retain(s1, k, d.0);
        lemma_key_slot_nonneg(s1, k);
        assert(now[p].1 == TreeView::Leaf(kd, s2));
        assert(s2.len() == s1.len());
        assert forall|q: int| 0 <= q < s0.len() implies (#[trigger] s2[q]).0 == s0[q].0 && (!in_range(s0[q].0, r)
            ==> s2[q] == s0[q]) && (s0[q].1.len() == 0 ==> s2[q].1.len() == 0) by {
            assert(s1[q].0 == s0[q].0);
            match key_at(s1, k) {
                Some(q0) => {
                    if q == q0 {
                        assert(s1[q0].0 == k);
                        if s1[q].1.len() == 0 {
                            assert(without_doc(s1[q].1, d.0) == s1[q].1);
                        }
                    } else {
                        assert(s2[q] == s1[q]);
                    }
                },
                None => {
                    assert(s2[q] == s1[q]);
                },
            }
        }
    }
}

/// Whether every document of leaf `t` sits in the bucket of the key it
/// holds at field `key` (see `leaf_placed`), for the leaf a lookup of
/// `field` reads in branch `t`.
pub open spec fn looked_up_placed(t: TreeView, field: Seq<char>) -> bool {
    leaf_placed(select_field(t, field), field)
}

/// Taking documents in range out of an object entry, one or all, leaves
/// the buckets of the looked-up field whose key is out of range as they
/// were (a key at an excluded end among them), when each document of that
/// field sits in the bucket of the key it holds there; taking all of them
/// empties the buckets in range.
pub proof fn law_take_in_range_keeps_others(t: TreeView, field: Seq<char>, r: RangeView)
    requires
        t is Branch,
        looked_up_placed(t, field),
    ensures
        looked_up_buckets(tree_pop_in(t, field, r).1, field).len() == looked_up_buckets(t, field).len(),
        forall|q: int| 0 <= q < looked_up_buckets(t, field).len() && !in_range(#[trigger] looked_up_buckets(t, field)[q].0, r)
            ==> looked_up_buckets(tree_pop_in(t, field, r).1, field)[q] == looked_up_buckets(t, field)[q],
        looked_up_buckets(tree_drain_in(t, field, r).1, field).len() == looked_up_buckets(t, field).len(),
        forall|q: int| 0 <= q < looked_up_buckets(t, field).len() ==> (if in_range(#[trigger] looked_up_buckets(t, field)[q].0, r) {
            looked_up_buckets(tree_drain_in(t, field, r).1, field)[q].1.len() == 0
        } else {
            looked_up_buckets(tree_drain_in(t, field, r).1, field)[q] == looked_up_buckets(t, field)[q]
        }),
{
    let ch = t->Branch_0;
    let sb = looked_up_buckets(t, field);
    match first_pos(ch, field) {
        None => {},
        Some(p) => {
            lemma_first_pos_found(ch, field);
            match ch[p].1 {
                TreeView::Leaf(kd, s) => {
                    assert(select_field(t, field) == ch[p].1);
                    assert(sb == s);
                    assert(leaf_placed(TreeView::Leaf(kd, s), field));
                    // one document
                    let (res, c2) = leaf_pop_in(ch[p].1, r);
                    let ch2 = ch.update(p, (ch[p].0, c2));
                    lemma_first_full_in_first(s, r);
                    match res {
                        Some(d) => {
                            let p0 = first_full_in(s, r).unwrap();
                            let s1 = s.update(p0, (s[p0].0, s[p0].1.drop_last()));
                            assert(c2 == TreeView::Leaf(kd, s1));
                            assert(0 <= p0 < s.len() && s[p0].1.len() > 0);
                            assert(d == s[p0].1[s[p0].1.len() - 1]);
                            assert(held_key(s[p0].1[s[p0].1.len() - 1].1, field) == Some(s[p0].0));
                            let one = seq![d];
                            assert(one.drop_last() =~= Seq::<(u64, JsonView)>::empty());
                            assert(fields_retain_all(ch2, one.drop_last()) == ch2);
                            assert(one.last() == d);
                            assert(fields_retain_all(ch2, one) == fields_retain(ch2, 0, d));
                            assert(one[0] == d);
                            assert(ch2[p].0 == field);
                            assert(in_range(s[p0].0, r));
                            assert(key_in_range(one[0].1, ch2[p].0, r));
                            lemma_retain_all_in_range(ch2, one, p, kd, s1, r);
                            lemma_kinds_kept(ch2, one, p);
                            let after = fields_retain_all(ch2, one);
                            assert forall|i: int| 0 <= i < after.len() implies (#[trigger] after[i]).0 == ch[i].0 by {
                                lemma_kinds_kept(ch2, one, i);
                            }
                            lemma_first_pos_names(after, ch, field);
                            assert forall|q: int| 0 <= q < s.len() && !in_range(#[trigger] s[q].0, r) implies s1[q] == s[q] by {
                                assert(q != p0);
                            }
                        },
                        None => {
                            assert(ch2 =~= ch);
                        },
                    }
                    // all documents
                    let docs = docs_in_range(s, r);
                    let s3 = drain_range(s, r);
                    let ch3 = ch.update(p, (ch[p].0, TreeView::Leaf(kd, s3)));
                    lemma_docs_in_range(s, r);
                    assert forall|i: int| 0 <= i < docs.len() implies #[trigger] key_in_range(docs[i].1, ch3[p].0, r) by {
                        assert(in_bucket_in_range(s, r, docs[i]));
                        let (q, j) = choose|q: int, j: int| 0 <= q < s.len() && in_range(s[q].0, r) && 0 <= j < s[q].1.len() && #[trigger] s[q].1[j] == docs[i];
                        assert(held_key(s[q].1[j].1, field) == Some(s[q].0));
                    }
                    lemma_retain_all_in_range(ch3, docs, p, kd, s3, r);
                    let after3 = fields_retain_all(ch3, docs);
                    lemma_kinds_kept(ch3, docs, p);
                    assert forall|i: int| 0 <= i < after3.len() implies (#[trigger] after3[i]).0 == ch[i].0 by {
                        lemma_kinds_kept(ch3, docs, i);
                    }
                    lemma_first_pos_names(after3, ch, field);
                },
                _ => {
                    let (res, c2) = leaf_pop_in(ch[p].1, r);
                    assert(ch.update(p, (ch[p].0, c2)) =~= ch);
                    let ch3 = ch.update(p, (ch[p].0, leaf_drain_in(ch[p].1, r).1));
                    assert(ch3 =~= ch);
                    let docs = leaf_drain_in(ch[p].1, r).0;
                    lemma_kinds_kept(ch, docs, p);
                    let after3 = fields_retain_all(ch, docs);
                    assert forall|i: int| 0 <= i < after3.len() implies (#[trigger] after3[i]).0 == ch[i].0 by {
                        lemma_kinds_kept(ch, docs, i);
                    }
                    lemma_first_pos_names(after3, ch, field);
                },
            }
        },
    }
}

} // verus!

