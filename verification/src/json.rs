//! The JSON documents that the store holds.
//!
//! A number keeps the three shapes that a JSON number can take: a
//! non-negative integer, a negative integer, or a float given by its
//! IEEE-754 bit pattern. An object is a list of (key, value) pairs in order.

use vstd::prelude::*;

verus! {

/// A JSON number.
#[derive(Clone, Copy, PartialEq, Eq, Structural, Debug)]
pub enum JsonNumber {
    /// A non-negative integer.
    PosInt(u64),
    /// A negative integer.
    NegInt(i64),
    /// A float, by its IEEE-754 bit pattern.
    Float(u64),
}

/// A JSON document.
#[derive(Debug)]
pub enum JsonValue {
    Null,
    Bool(bool),
    Number(JsonNumber),
    String(String),
    Array(Vec<JsonValue>),
    Object(Vec<(String, JsonValue)>),
}

/// The mathematical model of a JSON document: strings are character
/// sequences and an object is a sequence of (key, value) pairs.
pub enum JsonView {
    Null,
    Bool(bool),
    Number(JsonNumber),
    Str(Seq<char>),
    Array(Seq<JsonView>),
    Object(Seq<(Seq<char>, JsonView)>),
}

/// The model of each element of an array.
pub open spec fn view_items(s: Seq<JsonValue>) -> Seq<JsonView>
    decreases s,
{
    if s.len() == 0 {
        Seq::empty()
    } else {
        view_items(s.drop_last()).push(view_value(s.last()))
    }
}

/// The model of each pair of an object.
pub open spec fn view_pairs(s: Seq<(String, JsonValue)>) -> Seq<(Seq<char>, JsonView)>
    decreases s,
{
    if s.len() == 0 {
        Seq::empty()
    } else {
        view_pairs(s.drop_last()).push((s.last().0@, view_value(s.last().1)))
    }
}

/// The model of a JSON document.
pub open spec fn view_value(v: JsonValue) -> JsonView
    decreases v,
{
    match v {
        JsonValue::Null => JsonView::Null,
        JsonValue::Bool(b) => JsonView::Bool(b),
        JsonValue::Number(n) => JsonView::Number(n),
        JsonValue::String(s) => JsonView::Str(s@),
        JsonValue::Array(a) => JsonView::Array(view_items(a@)),
        JsonValue::Object(m) => JsonView::Object(view_pairs(m@)),
    }
}

impl View for JsonValue {
    type V = JsonView;

    open spec fn view(&self) -> JsonView {
        view_value(*self)
    }
}

pub proof fn lemma_view_items_len(s: Seq<JsonValue>)
    ensures
        view_items(s).len() == s.len(),
        forall|i: int| 0 <= i < s.len() ==> #[trigger] view_items(s)[i] == view_value(s[i]),
    decreases s.len(),
{
    if s.len() > 0 {
        lemma_view_items_len(s.drop_last());
    }
}

pub proof fn lemma_view_pairs_len(s: Seq<(String, JsonValue)>)
    ensures
        view_pairs(s).len() == s.len(),
        forall|i: int|
            0 <= i < s.len() ==> #[trigger] view_pairs(s)[i] == (s[i].0@, view_value(s[i].1)),
    decreases s.len(),
{
    if s.len() > 0 {
        lemma_view_pairs_len(s.drop_last());
    }
}

impl JsonNumber {
    /// Whether the number is a float.
    pub fn is_f64(&self) -> (r: bool)
        ensures
            r == (*self is Float),
    {
        match self {
            JsonNumber::Float(_) => true,
            _ => false,
        }
    }

    /// The number as an `i64`, if it is an integer that fits.
    pub fn as_i64(&self) -> (r: Option<i64>)
        ensures
            r == (match *self {
                JsonNumber::PosInt(n) => if n <= i64::MAX {
                    Some(n as i64)
                } else {
                    None
                },
                JsonNumber::NegInt(n) => Some(n),
                JsonNumber::Float(_) => None,
            }),
    {
        match self {
            JsonNumber::PosInt(n) => if *n <= 9223372036854775807u64 {
                Some(*n as i64)
            } else {
                None
            },
            JsonNumber::NegInt(n) => Some(*n),
            JsonNumber::Float(_) => None,
        }
    }
}

impl JsonValue {
    /// A copy of this document.
    pub fn copy(&self) -> (r: JsonValue)
        ensures
            r@ == self@,
        decreases self,
    {
        match self {
            JsonValue::Null => JsonValue::Null,
            JsonValue::Bool(b) => JsonValue::Bool(*b),
            JsonValue::Number(n) => JsonValue::Number(*n),
            JsonValue::String(s) => JsonValue::String(s.clone()),
            JsonValue::Array(a) => {
                let mut out: Vec<JsonValue> = Vec::new();
                let mut i: usize = 0;
                while i < a.len()
                    invariant
                        i <= a@.len(),
                        view_items(out@) == view_items(a@.take(i as int)),
                        *self == JsonValue::Array(*a),
                    decreases a@.len() - i,
                {
                    proof {
                        assert(decreases_to!(*self => (*self)->Array_0));
                        assert(decreases_to!(*a => a@));
                        assert(decreases_to!(a@ => a@[i as int]));
                        assert(decreases_to!(*self => a@[i as int]));
                    }
                    let c = a[i].copy();
                    let ghost prev = out@;
                    out.push(c);
                    proof {
                        assert(a@.take(i + 1).drop_last() =~= a@.take(i as int));
                        assert(out@.drop_last() =~= prev);
                        assert(a@.take(i + 1).last() == a@[i as int]);
                    }
                    i = i + 1;
                }
                proof {
                    assert(a@.take(a@.len() as int) =~= a@);
                }
                JsonValue::Array(out)
            },
            JsonValue::Object(m) => {
                let mut out: Vec<(String, JsonValue)> = Vec::new();
                let mut i: usize = 0;
                while i < m.len()
                    invariant
                        i <= m@.len(),
                        view_pairs(out@) == view_pairs(m@.take(i as int)),
                        *self == JsonValue::Object(*m),
                    decreases m@.len() - i,
                {
                    proof {
                        assert(decreases_to!(*self => (*self)->Object_0));
                        assert(decreases_to!(*m => m@));
                        assert(decreases_to!(m@ => m@[i as int]));
                        assert(decreases_to!(m@[i as int] => m@[i as int].1));
                        assert(decreases_to!(*self => m@[i as int].1));
                    }
                    let k = m[i].0.clone();
                    let c = m[i].1.copy();
                    let ghost prev = out@;
                    out.push((k, c));
                    proof {
                        assert(m@.take(i + 1).drop_last() =~= m@.take(i as int));
                        assert(out@.drop_last() =~= prev);
                        assert(m@.take(i + 1).last() == m@[i as int]);
                    }
                    i = i + 1;
                }
                proof {
                    assert(m@.take(m@.len() as int) =~= m@);
                }
                JsonValue::Object(out)
            },
        }
    }
}


impl JsonValue {
    /// Whether two documents are equal: same shape, same values, and
    /// objects with the same pairs in the same order.
    pub fn equals(&self, other: &JsonValue) -> (r: bool)
        ensures
            r == (self@ == other@),
        decreases self,
    {
        match (self, other) {
            (JsonValue::Null, JsonValue::Null) => true,
            (JsonValue::Bool(a), JsonValue::Bool(b)) => *a == *b,
            (JsonValue::Number(a), JsonValue::Number(b)) => *a == *b,
            (JsonValue::String(a), JsonValue::String(b)) => *a == *b,
            (JsonValue::Array(a), JsonValue::Array(b)) => {
                proof {
                    lemma_view_items_len(a@);
                    lemma_view_items_len(b@);
                }
                if a.len() != b.len() {
                    return false;
                }
                let mut i: usize = 0;
                while i < a.len()
                    invariant
                        i <= a@.len(),
                        a@.len() == b@.len(),
                        *self == JsonValue::Array(*a),
                        *other == JsonValue::Array(*b),
                        view_items(a@).len() == a@.len(),
                        view_items(b@).len() == b@.len(),
                        forall|q: int| 0 <= q < a@.len() ==> #[trigger] view_items(a@)[q] == view_value(a@[q]),
                        forall|q: int| 0 <= q < b@.len() ==> #[trigger] view_items(b@)[q] == view_value(b@[q]),
                        forall|q: int| 0 <= q < i ==> #[trigger] view_items(a@)[q] == view_items(b@)[q],
                    decreases a@.len() - i,
                {
                    proof {
                        assert(decreases_to!(*self => (*self)->Array_0));
                        assert(decreases_to!(*a => a@));
                        assert(decreases_to!(a@ => a@[i as int]));
                    }
                    if !a[i].equals(&b[i]) {
                        proof {
                            assert(view_items(a@)[i as int] != view_items(b@)[i as int]);
                            assert(self@ == JsonView::Array(view_items(a@)));
                            assert(other@ == JsonView::Array(view_items(b@)));
                        }
                        return false;
                    }
                    i = i + 1;
                }
                proof {
                    assert(view_items(a@) =~= view_items(b@));
                }
                true
            },
            (JsonValue::Object(a), JsonValue::Object(b)) => {
                proof {
                    lemma_view_pairs_len(a@);
                    lemma_view_pairs_len(b@);
                }
                if a.len() != b.len() {
                    return false;
                }
                let mut i: usize = 0;
                while i < a.len()
                    invariant
                        i <= a@.len(),
                        a@.len() == b@.len(),
                        *self == JsonValue::Object(*a),
                        *other == JsonValue::Object(*b),
                        view_pairs(a@).len() == a@.len(),
                        view_pairs(b@).len() == b@.len(),
                        forall|q: int| 0 <= q < a@.len() ==> #[trigger] view_pairs(a@)[q] == (a@[q].0@, view_value(a@[q].1)),
                        forall|q: int| 0 <= q < b@.len() ==> #[trigger] view_pairs(b@)[q] == (b@[q].0@, view_value(b@[q].1)),
                        forall|q: int| 0 <= q < i ==> #[trigger] view_pairs(a@)[q] == view_pairs(b@)[q],
                    decreases a@.len() - i,
                {
                    proof {
                        assert(decreases_to!(*self => (*self)->Object_0));
                        assert(decreases_to!(*a => a@));
                        assert(decreases_to!(a@ => a@[i as int]));
                        assert(decreases_to!(a@[i as int] => a@[i as int].1));
                    }
                    if a[i].0 != b[i].0 || !a[i].1.equals(&b[i].1) {
                        proof {
                            assert(view_pairs(a@)[i as int] != view_pairs(b@)[i as int]);
                            assert(self@ == JsonView::Object(view_pairs(a@)));
                            assert(other@ == JsonView::Object(view_pairs(b@)));
                        }
                        return false;
                    }
                    i = i + 1;
                }
                proof {
                    assert(view_pairs(a@) =~= view_pairs(b@));
                }
                true
            },
            _ => false,
        }
    }
}
} // verus!
