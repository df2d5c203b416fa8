use object_space::entry::Entry;
use object_space::flat::{deflatten, flatten, split_path, try_deflatten};
use object_space::json::{JsonNumber, JsonValue};
use object_space::object_space::TreeObjectSpace;
use object_space::ordered::{FloatKey, IndexKey, KeyBound, KeyRange};
use std::any::TypeId;

fn num(n: i64) -> JsonValue {
    if n >= 0 {
        JsonValue::Number(JsonNumber::PosInt(n as u64))
    } else {
        JsonValue::Number(JsonNumber::NegInt(n))
    }
}

fn string(s: &str) -> JsonValue {
    JsonValue::String(s.to_string())
}

fn object(fields: Vec<(&str, JsonValue)>) -> JsonValue {
    JsonValue::Object(fields.into_iter().map(|(k, v)| (k.to_string(), v)).collect())
}

fn fkey(f: f64) -> FloatKey {
    FloatKey { bits: f.to_bits() }
}

fn nested() -> JsonValue {
    object(vec![
        ("a", object(vec![("b", num(1)), ("c", object(vec![("d", JsonValue::Bool(true))]))])),
        ("e", string("x")),
        ("f", JsonValue::Array(vec![num(1), num(2)])),
    ])
}

#[test]
fn flatten_joins_nested_keys_with_dots() {
    let flat = flatten(nested());
    let expected = object(vec![
        ("a.b", num(1)),
        ("a.c.d", JsonValue::Bool(true)),
        ("e", string("x")),
        ("f", JsonValue::Array(vec![num(1), num(2)])),
    ]);
    assert!(flat.equals(&expected));
}

#[test]
fn flatten_keeps_plain_values() {
    assert!(flatten(num(3)).equals(&num(3)));
    assert!(flatten(string("s")).equals(&string("s")));
    assert!(flatten(JsonValue::Null).equals(&JsonValue::Null));
}

#[test]
fn deflatten_undoes_flatten() {
    let v = nested();
    let back = deflatten(flatten(v.copy()));
    assert!(back.equals(&v));
    assert!(try_deflatten(flatten(v.copy())).unwrap().equals(&v));
}

#[test]
fn deflatten_splits_dotted_keys() {
    let flat = object(vec![("a.b", num(1)), ("a.c", num(2)), ("d", num(3))]);
    let expected = object(vec![("a", object(vec![("b", num(1)), ("c", num(2))])), ("d", num(3))]);
    assert!(try_deflatten(flat).unwrap().equals(&expected));
}

#[test]
fn deflatten_refuses_a_path_through_a_plain_value() {
    let flat = object(vec![("a", num(1)), ("a.b", num(2))]);
    assert!(try_deflatten(flat).is_none());
}

#[test]
fn flatten_loses_an_empty_nested_object() {
    let v = object(vec![("a", object(vec![])), ("b", num(1))]);
    let back = try_deflatten(flatten(v)).unwrap();
    assert!(back.equals(&object(vec![("b", num(1))])));
}

#[test]
fn split_path_keeps_empty_segments() {
    let segs = split_path(&"a..b".to_string());
    assert_eq!(segs, vec!["a".to_string(), "".to_string(), "b".to_string()]);
    assert_eq!(split_path(&"".to_string()), vec!["".to_string()]);
}

#[test]
fn take_gives_back_the_last_write() {
    let t = TypeId::of::<i64>();
    let mut space = TreeObjectSpace::new();
    space.write(t, num(1));
    space.write(t, num(2));
    space.write(t, num(3));
    assert!(space.try_take(t).unwrap().unwrap().equals(&num(3)));
    assert!(space.try_read(t).unwrap().unwrap().equals(&num(1)));
    let rest = space.read_all(t).unwrap();
    assert_eq!(rest.len(), 2);
    assert!(rest[0].equals(&num(1)));
    assert!(rest[1].equals(&num(2)));
}

#[test]
fn taking_by_value_moves_the_last_record_into_its_place() {
    let t = TypeId::of::<i64>();
    let mut space = TreeObjectSpace::new();
    space.write(t, num(1));
    space.write(t, num(2));
    space.write(t, num(3));
    assert!(space.try_take_by_value(t, "", &1i64).unwrap().unwrap().equals(&num(1)));
    let rest = space.read_all(t).unwrap();
    assert_eq!(rest.len(), 2);
    assert!(rest[0].equals(&num(3)));
    assert!(rest[1].equals(&num(2)));
}

#[test]
fn types_are_kept_apart() {
    let mut space = TreeObjectSpace::new();
    space.write(TypeId::of::<i64>(), num(7));
    space.write(TypeId::of::<String>(), string("seven"));
    assert_eq!(space.take_all(TypeId::of::<String>()).unwrap().len(), 1);
    assert!(space.try_read(TypeId::of::<i64>()).unwrap().unwrap().equals(&num(7)));
    assert!(space.try_read(TypeId::of::<String>()).unwrap().is_none());
}

#[test]
fn a_field_of_another_kind_is_refused() {
    let t = TypeId::of::<u8>();
    let mut space = TreeObjectSpace::new();
    assert!(space.can_write(t, &object(vec![("count", num(3))])));
    space.write(t, object(vec![("count", num(3))]));
    assert!(!space.can_write(t, &object(vec![("count", string("three"))])));
    assert!(space.can_write(t, &object(vec![("count", num(4))])));
    assert!(space.can_lookup::<i64>(t, "count"));
    assert!(!space.can_lookup::<String>(t, "count"));
    assert!(space.can_lookup::<String>(t, "missing"));
}

#[test]
fn an_empty_range_with_excluded_ends_is_refused() {
    let t = TypeId::of::<u16>();
    let mut space = TreeObjectSpace::new();
    space.write(t, num(3));
    let bad = KeyRange { start: KeyBound::Excluded(3i64), end: KeyBound::Excluded(3i64) };
    let reversed = KeyRange { start: KeyBound::Included(5i64), end: KeyBound::Included(2i64) };
    let good = KeyRange { start: KeyBound::Included(3i64), end: KeyBound::Included(3i64) };
    assert!(!space.can_lookup_range(t, "", &bad));
    assert!(!space.can_lookup_range(t, "", &reversed));
    assert!(space.can_lookup_range(t, "", &good));
    assert_eq!(space.read_all_by_range(t, "", &good).unwrap().len(), 1);
}

#[test]
fn strings_are_ordered_by_code_point() {
    let t = TypeId::of::<String>();
    let mut space = TreeObjectSpace::new();
    space.write(t, string("apple"));
    space.write(t, string("banana"));
    space.write(t, string("cherry"));
    space.write(t, string("Zebra"));
    let r = KeyRange { start: KeyBound::Included("b".to_string()), end: KeyBound::Excluded("c".to_string()) };
    let found = space.read_all_by_range(t, "", &r).unwrap();
    assert_eq!(found.len(), 1);
    assert!(found[0].equals(&string("banana")));
    let upper = KeyRange { start: KeyBound::Unbounded, end: KeyBound::Excluded("a".to_string()) };
    let found = space.read_all_by_range(t, "", &upper).unwrap();
    assert_eq!(found.len(), 1);
    assert!(found[0].equals(&string("Zebra")));
}

#[test]
fn floats_are_ordered_by_value() {
    assert!(fkey(-1.5).order() < fkey(0.0).order());
    assert!(fkey(0.0).order() < fkey(2.0).order());
    assert!(fkey(2.0).order() < fkey(2.5).order());
    assert!(fkey(-2.5).order() < fkey(-1.5).order());
    assert_eq!(fkey(-0.0).order(), fkey(0.0).order());
    assert!(fkey(-1.5).less(&fkey(0.25)));
    assert!(fkey(-0.0).same(&fkey(0.0)));
    assert_eq!(fkey(0.0).order(), 0);
}

#[test]
fn bool_fields_are_found_by_value() {
    let t = TypeId::of::<bool>();
    let mut space = TreeObjectSpace::new();
    space.write(t, object(vec![("done", JsonValue::Bool(false)), ("n", num(1))]));
    space.write(t, object(vec![("done", JsonValue::Bool(true)), ("n", num(2))]));
    let got = space.try_take_by_value(t, "done", &true).unwrap().unwrap();
    assert!(got.equals(&object(vec![("done", JsonValue::Bool(true)), ("n", num(2))])));
    assert!(space.try_read_by_value(t, "done", &true).unwrap().is_none());
    assert_eq!(space.read_all_by_value(t, "done", &false).unwrap().len(), 1);
}

#[test]
fn entry_counts_records_and_looks_them_up() {
    let mut e = Entry::new();
    assert!(e.get().is_none());
    e.add(object(vec![("k", num(1))]));
    e.add(object(vec![("k", num(2))]));
    e.add(object(vec![("k", num(1))]));
    assert_eq!(e.get_all().len(), 3);
    assert_eq!(e.find_all_by_value("k", &1i64).len(), 2);
    assert!(e.find_by_value("k", &2i64).unwrap().equals(&object(vec![("k", num(2))])));
    assert_eq!(e.take_all_by_value("k", &1i64).len(), 2);
    assert_eq!(e.get_all().len(), 1);
    assert!(e.remove().unwrap().equals(&object(vec![("k", num(2))])));
    assert!(e.remove().is_none());
    assert_eq!(e.remove_all().len(), 0);
}

#[test]
fn json_helpers() {
    assert_eq!(JsonNumber::PosInt(5).as_i64(), Some(5));
    assert_eq!(JsonNumber::PosInt(u64::MAX).as_i64(), None);
    assert_eq!(JsonNumber::NegInt(-5).as_i64(), Some(-5));
    assert_eq!(JsonNumber::Float(1.5f64.to_bits()).as_i64(), None);
    assert!(JsonNumber::Float(1.5f64.to_bits()).is_f64());
    assert!(!JsonNumber::PosInt(1).is_f64());
    assert!(!object(vec![("a", num(1))]).equals(&object(vec![("a", num(2))])));
    assert!(!object(vec![("a", num(1))]).equals(&object(vec![("b", num(1))])));
    assert!(!JsonValue::Array(vec![num(1)]).equals(&JsonValue::Array(vec![num(1), num(2)])));
    assert!(nested().copy().equals(&nested()));
}

#[test]
fn a_record_that_cannot_be_rebuilt_is_reported() {
    let t = TypeId::of::<u32>();
    let mut space = TreeObjectSpace::new();
    space.write(t, object(vec![("a", num(1)), ("a.b", num(2))]));
    assert!(space.try_read(t).is_err());
    assert!(space.read_all(t).is_err());
    assert!(space.try_read_by_value(t, "a", &1i64).is_err());
    assert!(space.try_take(t).is_err());
    assert_eq!(space.read_all(t).unwrap().len(), 0);
}

#[test]
fn a_first_write_needs_indexable_fields() {
    let t = TypeId::of::<u64>();
    let mut space = TreeObjectSpace::new();
    assert!(!space.can_write(t, &JsonValue::Number(JsonNumber::PosInt(u64::MAX))));
    assert!(space.can_write(t, &num(7)));
    let nested = object(vec![("a", object(vec![("b", num(1))])), ("c", JsonValue::Null)]);
    assert!(space.can_write(TypeId::of::<u8>(), &nested));
    let deep_number = object(vec![("a", object(vec![("b", JsonValue::Number(JsonNumber::PosInt(u64::MAX)))]))]);
    assert!(!space.can_write(TypeId::of::<u8>(), &deep_number));
}

#[test]
fn a_write_appends_after_the_records_of_its_type_only() {
    let t = TypeId::of::<i32>();
    let u = TypeId::of::<i16>();
    let mut space = TreeObjectSpace::new();
    space.write(t, num(1));
    space.write(u, num(9));
    space.write(t, num(2));
    let all = space.read_all(t).unwrap();
    assert_eq!(all.len(), 2);
    assert!(all[0].equals(&num(1)));
    assert!(all[1].equals(&num(2)));
    let others = space.read_all(u).unwrap();
    assert_eq!(others.len(), 1);
    assert!(others[0].equals(&num(9)));
}

