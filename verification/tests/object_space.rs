use object_space::json::{JsonNumber, JsonValue};
use object_space::object_space::{InvalidRecord, TreeObjectSpace};
use object_space::ordered::{FloatKey, KeyBound, KeyRange};
use std::any::TypeId;

#[allow(dead_code)]
struct TestStruct {
    count: i32,
    name: String,
}

#[allow(dead_code)]
struct CompoundStruct {
    person: TestStruct,
    gpa: f64,
}

#[allow(dead_code)]
enum TestEnum {
    String(String),
    Int(i32),
    Struct { count: i32, name: String },
}

fn num(n: i64) -> JsonValue {
    if n >= 0 {
        JsonValue::Number(JsonNumber::PosInt(n as u64))
    } else {
        JsonValue::Number(JsonNumber::NegInt(n))
    }
}

fn float(f: f64) -> JsonValue {
    JsonValue::Number(JsonNumber::Float(f.to_bits()))
}

fn string(s: &str) -> JsonValue {
    JsonValue::String(s.to_string())
}

fn object(fields: Vec<(&str, JsonValue)>) -> JsonValue {
    JsonValue::Object(fields.into_iter().map(|(k, v)| (k.to_string(), v)).collect())
}

fn test_struct(count: i64, name: &str) -> JsonValue {
    object(vec![("count", num(count)), ("name", string(name))])
}

fn compound(count: i64, name: &str, gpa: f64) -> JsonValue {
    object(vec![("gpa", float(gpa)), ("person", test_struct(count, name))])
}

fn fkey(f: f64) -> FloatKey {
    FloatKey { bits: f.to_bits() }
}

fn span<K>(a: K, b: K) -> KeyRange<K> {
    KeyRange { start: KeyBound::Included(a), end: KeyBound::Excluded(b) }
}

fn from<K>(a: K) -> KeyRange<K> {
    KeyRange { start: KeyBound::Included(a), end: KeyBound::Unbounded }
}

fn below<K>(b: K) -> KeyRange<K> {
    KeyRange { start: KeyBound::Unbounded, end: KeyBound::Excluded(b) }
}

/// Whether a read from the space gave the document `b`.
fn same(a: Result<Option<JsonValue>, InvalidRecord>, b: &JsonValue) -> bool {
    match a {
        Ok(Some(v)) => v.equals(b),
        _ => false,
    }
}

fn tid<T: 'static>() -> TypeId {
    TypeId::of::<T>()
}

#[test]
fn try_read() {
    let mut space = TreeObjectSpace::new();
    assert!(space.try_read(tid::<String>()).unwrap().is_none());
    space.write(tid::<String>(), string("Hello World"));
    space.write(tid::<TestStruct>(), test_struct(3, "Tuan"));
    space.write(tid::<CompoundStruct>(), compound(3, "Tuan", 3.0));

    assert!(same(space.try_read(tid::<String>()), &string("Hello World")));
    assert!(space.try_read(tid::<String>()).unwrap().is_some());

    assert!(same(space.try_read(tid::<TestStruct>()), &test_struct(3, "Tuan")));

    assert!(same(space.try_read(tid::<CompoundStruct>()), &compound(3, "Tuan", 3.0)));
    assert!(space.try_read(tid::<CompoundStruct>()).unwrap().is_some());
}

#[test]
fn try_take() {
    let mut space = TreeObjectSpace::new();
    assert!(space.try_take(tid::<String>()).unwrap().is_none());
    space.write(tid::<String>(), string("Hello World"));
    space.write(tid::<TestStruct>(), test_struct(3, "Tuan"));
    space.write(tid::<CompoundStruct>(), compound(3, "Tuan", 3.5));

    assert!(same(space.try_take(tid::<String>()), &string("Hello World")));
    assert!(space.try_take(tid::<String>()).unwrap().is_none());

    assert!(same(space.try_take(tid::<TestStruct>()), &test_struct(3, "Tuan")));
    assert!(space.try_take(tid::<TestStruct>()).unwrap().is_none());

    assert!(same(space.try_take(tid::<CompoundStruct>()), &compound(3, "Tuan", 3.5)));
    assert!(space.try_take(tid::<CompoundStruct>()).unwrap().is_none());
}

#[test]
fn read_all() {
    let mut space = TreeObjectSpace::new();
    assert_eq!(space.read_all(tid::<String>()).unwrap().len(), 0);
    space.write(tid::<String>(), string("Hello"));
    space.write(tid::<String>(), string("World"));
    space.write(tid::<TestStruct>(), test_struct(3, "Tuan"));
    space.write(tid::<TestStruct>(), test_struct(5, "Duane"));

    let all = space.read_all(tid::<String>()).unwrap();
    assert_eq!(all.len(), 2);
    assert!(all[0].equals(&string("Hello")));
    assert!(all[1].equals(&string("World")));
    assert_ne!(space.read_all(tid::<String>()).unwrap().len(), 0);

    assert_eq!(space.read_all(tid::<TestStruct>()).unwrap().len(), 2);
    assert_eq!(space.read_all(tid::<TestStruct>()).unwrap().len(), 2);
}

#[test]
fn take_all() {
    let mut space = TreeObjectSpace::new();
    assert_eq!(space.take_all(tid::<String>()).unwrap().len(), 0);
    space.write(tid::<String>(), string("Hello"));
    space.write(tid::<String>(), string("World"));
    space.write(tid::<TestStruct>(), test_struct(3, "Tuan"));
    space.write(tid::<TestStruct>(), test_struct(5, "Duane"));

    assert_eq!(space.take_all(tid::<String>()).unwrap().len(), 2);
    assert_eq!(space.take_all(tid::<String>()).unwrap().len(), 0);

    assert_eq!(space.take_all(tid::<TestStruct>()).unwrap().len(), 2);
    assert_eq!(space.take_all(tid::<TestStruct>()).unwrap().len(), 0);
}

#[test]
fn try_read_by_range() {
    let mut space = TreeObjectSpace::new();
    assert!(space.try_read_by_range(tid::<i64>(), "", &span(2i64, 4)).unwrap().is_none());
    space.write(tid::<i64>(), num(3));
    space.write(tid::<i64>(), num(5));

    assert!(same(space.try_read_by_range(tid::<i64>(), "", &span(2i64, 4)), &num(3)));
    assert!(space.try_read_by_range(tid::<i64>(), "", &span(2i64, 4)).unwrap().is_some());

    space.write(tid::<TestStruct>(), test_struct(3, "Tuan"));
    space.write(tid::<TestStruct>(), test_struct(5, "Duane"));

    assert!(same(
        space.try_read_by_range(tid::<TestStruct>(), "count", &span(2i64, 4)),
        &test_struct(3, "Tuan")
    ));
    assert!(space.try_read_by_range(tid::<TestStruct>(), "count", &span(2i64, 4)).unwrap().is_some());

    space.write(tid::<CompoundStruct>(), compound(5, "Duane", 3.0));
    space.write(tid::<CompoundStruct>(), compound(3, "Tuan", 3.5));

    assert!(same(
        space.try_read_by_range(tid::<CompoundStruct>(), "person.count", &span(2i64, 4)),
        &compound(3, "Tuan", 3.5)
    ));
    assert!(space.try_read_by_range(tid::<CompoundStruct>(), "person.count", &span(2i64, 4)).unwrap().is_some());
}

#[test]
fn try_take_by_range() {
    let mut space = TreeObjectSpace::new();
    assert!(space.try_take_by_range(tid::<i64>(), "", &span(2i64, 4)).unwrap().is_none());
    space.write(tid::<i64>(), num(3));
    space.write(tid::<i64>(), num(5));
    assert!(same(space.try_take_by_range(tid::<i64>(), "", &span(2i64, 4)), &num(3)));
    assert!(space.try_take_by_range(tid::<i64>(), "", &span(2i64, 4)).unwrap().is_none());

    space.write(tid::<TestStruct>(), test_struct(3, "Tuan"));
    space.write(tid::<TestStruct>(), test_struct(5, "Duane"));

    assert!(same(
        space.try_take_by_range(tid::<TestStruct>(), "count", &span(2i64, 4)),
        &test_struct(3, "Tuan")
    ));
    assert!(space.try_take_by_range(tid::<TestStruct>(), "count", &span(2i64, 4)).unwrap().is_none());

    space.write(tid::<CompoundStruct>(), compound(3, "Tuan", 3.0));
    space.write(tid::<CompoundStruct>(), compound(5, "Duane", 3.5));

    assert!(same(
        space.try_take_by_range(tid::<CompoundStruct>(), "gpa", &span(fkey(3.0), fkey(3.5))),
        &compound(3, "Tuan", 3.0)
    ));
    assert!(space.try_take_by_range(tid::<CompoundStruct>(), "person.count", &span(2i64, 4)).unwrap().is_none());
}

#[test]
fn read_all_by_range() {
    let mut space = TreeObjectSpace::new();
    space.write(tid::<i64>(), num(3));
    space.write(tid::<i64>(), num(5));
    assert_eq!(space.read_all_by_range(tid::<i64>(), "", &span(2i64, 4)).unwrap().len(), 1);
    assert_eq!(space.read_all_by_range(tid::<i64>(), "", &span(2i64, 4)).unwrap().len(), 1);

    space.write(tid::<TestStruct>(), test_struct(3, "Tuan"));
    space.write(tid::<TestStruct>(), test_struct(3, "Minh"));
    space.write(tid::<TestStruct>(), test_struct(5, "Duane"));

    assert_eq!(space.read_all_by_range(tid::<TestStruct>(), "count", &span(2i64, 4)).unwrap().len(), 2);
    assert_eq!(space.read_all_by_range(tid::<TestStruct>(), "count", &span(2i64, 4)).unwrap().len(), 2);

    space.write(tid::<CompoundStruct>(), compound(5, "Duane", 4.0));
    space.write(tid::<CompoundStruct>(), compound(3, "Tuan", 3.0));
    space.write(tid::<CompoundStruct>(), compound(3, "Minh", 3.0));

    assert_eq!(
        space.read_all_by_range(tid::<CompoundStruct>(), "gpa", &span(fkey(2.5), fkey(4.0))).unwrap().len(),
        2
    );
    assert_eq!(
        space.read_all_by_range(tid::<CompoundStruct>(), "person.count", &span(2i64, 4)).unwrap().len(),
        2
    );
}

#[test]
fn take_all_by_range() {
    let mut space = TreeObjectSpace::new();
    space.write(tid::<i64>(), num(3));
    space.write(tid::<i64>(), num(5));
    assert_eq!(space.take_all_by_range(tid::<i64>(), "", &span(2i64, 4)).unwrap().len(), 1);
    assert_eq!(space.take_all_by_range(tid::<i64>(), "", &span(2i64, 4)).unwrap().len(), 0);

    space.write(tid::<TestStruct>(), test_struct(3, "Tuan"));
    space.write(tid::<TestStruct>(), test_struct(3, "Minh"));
    space.write(tid::<TestStruct>(), test_struct(5, "Duane"));

    assert_eq!(space.take_all_by_range(tid::<TestStruct>(), "count", &span(2i64, 4)).unwrap().len(), 2);
    assert_eq!(space.take_all_by_range(tid::<TestStruct>(), "count", &span(2i64, 4)).unwrap().len(), 0);
    assert_eq!(space.take_all_by_range(tid::<TestStruct>(), "count", &from(4i64)).unwrap().len(), 1);

    space.write(tid::<CompoundStruct>(), compound(5, "Duane", 3.5));
    space.write(tid::<CompoundStruct>(), compound(3, "Tuan", 3.0));
    space.write(tid::<CompoundStruct>(), compound(3, "Minh", 3.0));

    assert_eq!(
        space.take_all_by_range(tid::<CompoundStruct>(), "gpa", &span(fkey(2.5), fkey(3.5))).unwrap().len(),
        2
    );
    assert_eq!(
        space.take_all_by_range(tid::<CompoundStruct>(), "person.count", &span(2i64, 4)).unwrap().len(),
        0
    );
    assert_eq!(space.take_all_by_range(tid::<CompoundStruct>(), "gpa", &from(fkey(3.5))).unwrap().len(), 1);
}

#[test]
fn try_read_by_value() {
    let mut space = TreeObjectSpace::new();
    assert!(space.try_read_by_value(tid::<i64>(), "", &3i64).unwrap().is_none());
    space.write(tid::<i64>(), num(3));
    space.write(tid::<i64>(), num(5));

    assert!(same(space.try_read_by_value(tid::<i64>(), "", &3i64), &num(3)));
    assert!(space.try_read_by_value(tid::<i64>(), "", &2i64).unwrap().is_none());

    space.write(tid::<TestStruct>(), test_struct(3, "Tuan"));
    space.write(tid::<TestStruct>(), test_struct(5, "Duane"));

    assert!(same(
        space.try_read_by_value(tid::<TestStruct>(), "count", &3i64),
        &test_struct(3, "Tuan")
    ));
    assert!(space.try_read_by_value(tid::<TestStruct>(), "count", &3i64).unwrap().is_some());

    space.write(tid::<CompoundStruct>(), compound(5, "Duane", 4.0));
    space.write(tid::<CompoundStruct>(), compound(3, "Tuan", 3.0));

    assert!(same(
        space.try_read_by_value(tid::<CompoundStruct>(), "person.count", &3i64),
        &compound(3, "Tuan", 3.0)
    ));
    assert!(space.try_read_by_value(tid::<CompoundStruct>(), "gpa", &fkey(3.0)).unwrap().is_some());
}

#[test]
fn try_take_by_value() {
    let mut space = TreeObjectSpace::new();
    assert!(space.try_take_by_value(tid::<i64>(), "", &3i64).unwrap().is_none());
    space.write(tid::<i64>(), num(3));
    space.write(tid::<i64>(), num(5));
    assert!(space.try_take_by_value(tid::<i64>(), "", &4i64).unwrap().is_none());
    assert!(same(space.try_take_by_value(tid::<i64>(), "", &3i64), &num(3)));
    assert!(space.try_take_by_value(tid::<i64>(), "", &3i64).unwrap().is_none());

    space.write(tid::<TestStruct>(), test_struct(3, "Tuan"));
    assert!(same(
        space.try_take_by_value(tid::<TestStruct>(), "count", &3i64),
        &test_struct(3, "Tuan")
    ));
    assert!(space.try_take_by_value(tid::<TestStruct>(), "count", &3i64).unwrap().is_none());

    space.write(tid::<CompoundStruct>(), compound(3, "Tuan", 3.0));

    assert!(same(
        space.try_take_by_value(tid::<CompoundStruct>(), "person.count", &3i64),
        &compound(3, "Tuan", 3.0)
    ));
    assert!(space.try_take_by_value(tid::<CompoundStruct>(), "gpa", &fkey(3.0)).unwrap().is_none());
}

#[test]
fn read_all_by_value() {
    let mut space = TreeObjectSpace::new();
    space.write(tid::<i64>(), num(3));
    space.write(tid::<i64>(), num(5));
    assert_eq!(space.read_all_by_value(tid::<i64>(), "", &3i64).unwrap().len(), 1);
    assert_eq!(space.read_all_by_value(tid::<i64>(), "", &4i64).unwrap().len(), 0);

    space.write(tid::<TestStruct>(), test_struct(3, "Tuan"));
    space.write(tid::<TestStruct>(), test_struct(3, "Minh"));
    space.write(tid::<TestStruct>(), test_struct(5, "Duane"));

    assert_eq!(space.read_all_by_value(tid::<TestStruct>(), "count", &3i64).unwrap().len(), 2);
    assert_eq!(space.read_all_by_value(tid::<TestStruct>(), "count", &4i64).unwrap().len(), 0);

    space.write(tid::<CompoundStruct>(), compound(5, "Duane", 4.0));
    space.write(tid::<CompoundStruct>(), compound(3, "Tuan", 3.0));
    space.write(tid::<CompoundStruct>(), compound(3, "Minh", 3.5));

    assert_eq!(space.read_all_by_value(tid::<CompoundStruct>(), "person.count", &3i64).unwrap().len(), 2);
    assert_eq!(space.read_all_by_value(tid::<CompoundStruct>(), "person.count", &4i64).unwrap().len(), 0);
    assert_eq!(space.read_all_by_value(tid::<CompoundStruct>(), "gpa", &fkey(4.0)).unwrap().len(), 1);
}

#[test]
fn take_all_by_value() {
    let mut space = TreeObjectSpace::new();
    space.write(tid::<i64>(), num(3));
    space.write(tid::<i64>(), num(5));
    assert_eq!(space.take_all_by_value(tid::<i64>(), "", &3i64).unwrap().len(), 1);
    assert_eq!(space.take_all_by_value(tid::<i64>(), "", &4i64).unwrap().len(), 0);

    space.write(tid::<TestStruct>(), test_struct(3, "Tuan"));
    space.write(tid::<TestStruct>(), test_struct(3, "Minh"));
    space.write(tid::<TestStruct>(), test_struct(5, "Duane"));

    assert_eq!(space.take_all_by_value(tid::<TestStruct>(), "count", &3i64).unwrap().len(), 2);
    assert_eq!(space.take_all_by_value(tid::<TestStruct>(), "count", &3i64).unwrap().len(), 0);
    assert_eq!(space.take_all_by_value(tid::<TestStruct>(), "count", &5i64).unwrap().len(), 1);

    space.write(tid::<CompoundStruct>(), compound(5, "Duane", 4.0));
    space.write(tid::<CompoundStruct>(), compound(3, "Tuan", 3.0));
    space.write(tid::<CompoundStruct>(), compound(3, "Minh", 3.0));

    assert_eq!(space.take_all_by_value(tid::<CompoundStruct>(), "gpa", &fkey(3.0)).unwrap().len(), 2);
    assert_eq!(space.take_all_by_value(tid::<CompoundStruct>(), "person.count", &3i64).unwrap().len(), 0);
    assert_eq!(space.take_all_by_value(tid::<CompoundStruct>(), "person.count", &5i64).unwrap().len(), 1);
}

#[test]
fn read_enum_range() {
    let mut space = TreeObjectSpace::new();
    let int4 = object(vec![("Int", num(4))]);
    let tuan = object(vec![("Struct", test_struct(4, "Tuan"))]);
    assert_eq!(space.read_all(tid::<TestEnum>()).unwrap().len(), 0);
    space.write(tid::<TestEnum>(), int4.copy());
    assert!(same(space.try_read(tid::<TestEnum>()), &int4));
    assert!(same(space.try_read_by_value(tid::<TestEnum>(), "Int", &4i64), &int4));
    assert!(space.try_read_by_value(tid::<TestEnum>(), "Struct.count", &4i64).unwrap().is_none());
    assert!(space.try_read_by_range(tid::<TestEnum>(), "Struct.count", &span(3i64, 5)).unwrap().is_none());

    space.write(tid::<TestEnum>(), tuan.copy());
    assert!(same(space.try_read_by_value(tid::<TestEnum>(), "Struct.count", &4i64), &tuan));
    assert!(same(space.try_take_by_range(tid::<TestEnum>(), "Struct.count", &span(3i64, 5)), &tuan));
    assert!(same(space.try_read(tid::<TestEnum>()), &int4));
}

#[test]
fn range_without_lower_bound() {
    let mut space = TreeObjectSpace::new();
    space.write(tid::<i64>(), num(3));
    space.write(tid::<i64>(), num(5));
    assert!(space.try_read_by_range(tid::<i64>(), "", &below(2i64)).unwrap().is_none());
    assert!(same(space.try_read_by_range(tid::<i64>(), "", &below(4i64)), &num(3)));
    assert_eq!(space.read_all_by_range(tid::<i64>(), "", &from(2i64)).unwrap().len(), 2);
}
