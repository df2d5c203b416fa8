//! Ordered keys and the ordered per-field index.
//!
//! A field holds integers, floats, booleans or strings. Each kind is ordered
//! as Rust orders it: integers numerically, `false` before `true`, strings by
//! code point, and floats numerically with `-0.0` equal to `0.0`. A float is
//! carried by its bit pattern and ordered through an integer key.
//!
//! An `OrderedIndex` maps each key to the set of record numbers whose field
//! holds that key, and keeps the keys in increasing order.

use vstd::prelude::*;

verus! {

/// The model of an indexed field value.
pub enum LeafKey {
    Int(int),
    Float(int),
    Bool(bool),
    Str(Seq<char>),
}

/// Lexicographic order of character sequences by code point.
pub open spec fn chars_lt(a: Seq<char>, b: Seq<char>) -> bool
    decreases a.len(),
{
    if a.len() == 0 {
        b.len() > 0
    } else if b.len() == 0 {
        false
    } else if a[0] != b[0] {
        (a[0] as int) < (b[0] as int)
    } else {
        chars_lt(a.drop_first(), b.drop_first())
    }
}

pub open spec fn leaf_rank(k: LeafKey) -> int {
    match k {
        LeafKey::Int(_) => 0,
        LeafKey::Float(_) => 1,
        LeafKey::Bool(_) => 2,
        LeafKey::Str(_) => 3,
    }
}

/// The strict order on keys. Keys of one kind are ordered as described in
/// the module documentation; keys of different kinds never share an index.
pub open spec fn leaf_lt(a: LeafKey, b: LeafKey) -> bool {
    match (a, b) {
        (LeafKey::Int(x), LeafKey::Int(y)) => x < y,
        (LeafKey::Float(x), LeafKey::Float(y)) => x < y,
        (LeafKey::Bool(x), LeafKey::Bool(y)) => !x && y,
        (LeafKey::Str(x), LeafKey::Str(y)) => chars_lt(x, y),
        _ => leaf_rank(a) < leaf_rank(b),
    }
}

proof fn lemma_chars_lt_irreflexive(a: Seq<char>)
    ensures
        !chars_lt(a, a),
    decreases a.len(),
{
    if a.len() > 0 {
        lemma_chars_lt_irreflexive(a.drop_first());
    }
}

proof fn lemma_chars_lt_transitive(a: Seq<char>, b: Seq<char>, c: Seq<char>)
    requires
        chars_lt(a, b),
        chars_lt(b, c),
    ensures
        chars_lt(a, c),
    decreases a.len(),
{
    if a.len() > 0 && b.len() > 0 && c.len() > 0 {
        if a[0] == b[0] && b[0] == c[0] {
            lemma_chars_lt_transitive(a.drop_first(), b.drop_first(), c.drop_first());
        }
    }
}

proof fn lemma_chars_lt_total(a: Seq<char>, b: Seq<char>)
    ensures
        a != b ==> chars_lt(a, b) || chars_lt(b, a),
    decreases a.len(),
{
    if a.len() > 0 && b.len() > 0 {
        if a[0] == b[0] {
            lemma_chars_lt_total(a.drop_first(), b.drop_first());
            if a.drop_first() == b.drop_first() {
                assert(a =~= seq![a[0]] + a.drop_first());
                assert(b =~= seq![b[0]] + b.drop_first());
            }
        } else {
            assert((a[0] as int) != (b[0] as int));
        }
    } else if a.len() == 0 && b.len() == 0 {
        assert(a =~= b);
    }
}

/// `leaf_lt` is a strict total order.
pub proof fn lemma_leaf_order(a: LeafKey, b: LeafKey, c: LeafKey)
    ensures
        !leaf_lt(a, a),
        leaf_lt(a, b) && leaf_lt(b, c) ==> leaf_lt(a, c),
        a != b ==> leaf_lt(a, b) || leaf_lt(b, a),
{
    match a {
        LeafKey::Str(x) => lemma_chars_lt_irreflexive(x),
        _ => {},
    }
    if leaf_lt(a, b) && leaf_lt(b, c) {
        match (a, b, c) {
            (LeafKey::Str(x), LeafKey::Str(y), LeafKey::Str(z)) => lemma_chars_lt_transitive(
                x,
                y,
                z,
            ),
            _ => {},
        }
    }
    match (a, b) {
        (LeafKey::Str(x), LeafKey::Str(y)) => lemma_chars_lt_total(x, y),
        _ => {},
    }
}

/// The bound of a key range.
pub enum KeyBound<K> {
    Included(K),
    Excluded(K),
    Unbounded,
}

/// A range of keys, given by its two bounds.
pub struct KeyRange<K> {
    pub start: KeyBound<K>,
    pub end: KeyBound<K>,
}

/// The model of a bound.
pub enum BoundView {
    Included(LeafKey),
    Excluded(LeafKey),
    Unbounded,
}

/// The model of a range.
pub struct RangeView {
    pub start: BoundView,
    pub end: BoundView,
}

/// Whether key `k` lies in range `r`.
pub open spec fn in_range(k: LeafKey, r: RangeView) -> bool {
    &&& match r.start {
        BoundView::Included(a) => !leaf_lt(k, a),
        BoundView::Excluded(a) => leaf_lt(a, k),
        BoundView::Unbounded => true,
    }
    &&& match r.end {
        BoundView::Included(b) => !leaf_lt(b, k),
        BoundView::Excluded(b) => leaf_lt(k, b),
        BoundView::Unbounded => true,
    }
}

/// Whether a range is well formed: its start is not after its end, and it
/// is not empty with both ends excluded at one key. A range query on any
/// other range is refused (the ordered maps of std panic on it).
pub open spec fn range_ok(r: RangeView) -> bool {
    match (r.start, r.end) {
        (BoundView::Included(a), BoundView::Included(b)) => !leaf_lt(b, a),
        (BoundView::Included(a), BoundView::Excluded(b)) => !leaf_lt(b, a),
        (BoundView::Excluded(a), BoundView::Included(b)) => !leaf_lt(b, a),
        (BoundView::Excluded(a), BoundView::Excluded(b)) => leaf_lt(a, b),
        _ => true,
    }
}

/// A key type that the index can order.
pub trait IndexKey: Sized {
    /// The model of this key.
    spec fn leaf(&self) -> LeafKey;

    /// Whether `self` comes before `other`.
    fn less(&self, other: &Self) -> (r: bool)
        ensures
            r == leaf_lt(self.leaf(), other.leaf()),
    ;

    /// Whether `self` and `other` are the same key.
    fn same(&self, other: &Self) -> (r: bool)
        ensures
            r == (self.leaf() == other.leaf()),
    ;

    /// A copy of this key.
    fn copy_key(&self) -> (r: Self)
        ensures
            r.leaf() == self.leaf(),
    ;
}

impl IndexKey for i64 {
    open spec fn leaf(&self) -> LeafKey {
        LeafKey::Int(*self as int)
    }

    fn less(&self, other: &i64) -> (r: bool) {
        *self < *other
    }

    fn same(&self, other: &i64) -> (r: bool) {
        *self == *other
    }

    fn copy_key(&self) -> (r: i64) {
        *self
    }
}

impl IndexKey for bool {
    open spec fn leaf(&self) -> LeafKey {
        LeafKey::Bool(*self)
    }

    fn less(&self, other: &bool) -> (r: bool) {
        !*self && *other
    }

    fn same(&self, other: &bool) -> (r: bool) {
        *self == *other
    }

    fn copy_key(&self) -> (r: bool) {
        *self
    }
}

/// Calls `<str as PartialOrd>::lt`. std orders strings lexicographically by
/// their bytes, which orders them by code point; the claim is that order.
#[verifier::external_body]
pub(crate) fn str_lt(a: &str, b: &str) -> (r: bool)
    ensures
        r == chars_lt(a@, b@),
{
    a < b
}

impl IndexKey for String {
    open spec fn leaf(&self) -> LeafKey {
        LeafKey::Str(self@)
    }

    fn less(&self, other: &String) -> (r: bool) {
        str_lt(self.as_str(), other.as_str())
    }

    fn same(&self, other: &String) -> (r: bool) {
        *self == *other
    }

    fn copy_key(&self) -> (r: String) {
        self.clone()
    }
}

/// A float key, by its IEEE-754 bit pattern. Keys are built from numbers,
/// not NaN; a NaN pattern would order beyond the infinities.
#[derive(Clone, Copy, Debug)]
pub struct FloatKey {
    pub bits: u64,
}

/// The integer that orders floats: the magnitude bits, negated when the sign
/// bit is set. It orders non-NaN floats numerically, with `-0.0 == 0.0`.
pub open spec fn float_order(bits: u64) -> int {
    let m = (bits & 0x7fff_ffff_ffff_ffffu64) as int;
    if (bits >> 63u64) == 1u64 {
        -m
    } else {
        m
    }
}

impl FloatKey {
    /// The ordering integer of this float.
    pub fn order(&self) -> (r: i64)
        ensures
            r == float_order(self.bits),
    {
        let b = self.bits;
        let m = b & 0x7fff_ffff_ffff_ffffu64;
        assert(b & 0x7fff_ffff_ffff_ffffu64 <= 0x7fff_ffff_ffff_ffffu64) by (bit_vector);
        let mi: i64 = m as i64;
        if (b >> 63u64) == 1u64 {
            -mi
        } else {
            mi
        }
    }
}

impl IndexKey for FloatKey {
    open spec fn leaf(&self) -> LeafKey {
        LeafKey::Float(float_order(self.bits))
    }

    fn less(&self, other: &FloatKey) -> (r: bool) {
        self.order() < other.order()
    }

    fn same(&self, other: &FloatKey) -> (r: bool) {
        self.order() == other.order()
    }

    fn copy_key(&self) -> (r: FloatKey) {
        FloatKey { bits: self.bits }
    }
}

impl<K: IndexKey> KeyBound<K> {
    pub open spec fn view_bound(&self) -> BoundView {
        match self {
            KeyBound::Included(k) => BoundView::Included(k.leaf()),
            KeyBound::Excluded(k) => BoundView::Excluded(k.leaf()),
            KeyBound::Unbounded => BoundView::Unbounded,
        }
    }
}

impl<K: IndexKey> KeyRange<K> {
    /// The model of this range.
    pub open spec fn view_range(&self) -> RangeView {
        RangeView { start: self.start.view_bound(), end: self.end.view_bound() }
    }

    /// Whether `k` lies in this range.
    pub fn contains(&self, k: &K) -> (r: bool)
        ensures
            r == in_range(k.leaf(), self.view_range()),
    {
        let lower = match &self.start {
            KeyBound::Included(a) => !k.less(a),
            KeyBound::Excluded(a) => a.less(k),
            KeyBound::Unbounded => true,
        };
        let upper = match &self.end {
            KeyBound::Included(b) => !b.less(k),
            KeyBound::Excluded(b) => k.less(b),
            KeyBound::Unbounded => true,
        };
        lower && upper
    }

    /// Whether this range is well formed (see `range_ok`).
    pub fn is_well_formed(&self) -> (r: bool)
        ensures
            r == range_ok(self.view_range()),
    {
        match (&self.start, &self.end) {
            (KeyBound::Included(a), KeyBound::Included(b)) => !b.less(a),
            (KeyBound::Included(a), KeyBound::Excluded(b)) => !b.less(a),
            (KeyBound::Excluded(a), KeyBound::Included(b)) => !b.less(a),
            (KeyBound::Excluded(a), KeyBound::Excluded(b)) => a.less(b),
            _ => true,
        }
    }
}

} // verus!
