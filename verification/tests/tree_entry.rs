use object_space::json::{JsonNumber, JsonValue};
use object_space::shallow_flat::{deflatten, flatten};
use object_space::tree_entry::{remove_object, remove_value_arc, TreeNode, TreeSpaceEntry};
use object_space::doc_buckets::{
    bucket_push, get_all_prims_range, get_primitive_from_map, get_primitive_range, remove_all_prims_range,
    remove_primitive_from_map, remove_primitive_range,
};
use object_space::ordered::{FloatKey, KeyBound, KeyRange};

fn num(n: u64) -> JsonValue {
    JsonValue::Number(JsonNumber::PosInt(n))
}

fn string(s: &str) -> JsonValue {
    JsonValue::String(s.to_string())
}

fn object(fields: Vec<(&str, JsonValue)>) -> JsonValue {
    JsonValue::Object(fields.into_iter().map(|(k, v)| (k.to_string(), v)).collect())
}

fn test_struct(count: u64, name: &str) -> JsonValue {
    object(vec![("count", num(count)), ("name", string(name))])
}

fn is(a: Option<JsonValue>, b: &JsonValue) -> bool {
    match a {
        Some(v) => v.equals(b),
        None => false,
    }
}

#[test]
fn get() {
    let mut string_entry = TreeSpaceEntry::new();
    assert!(string_entry.get().is_none());
    string_entry.add(string("Hello World"));
    assert!(is(string_entry.get(), &string("Hello World")));
    assert!(string_entry.get().is_some());

    let mut test_struct_entry = TreeSpaceEntry::new();
    test_struct_entry.add(test_struct(3, "Tuan"));
    assert!(is(test_struct_entry.get(), &test_struct(3, "Tuan")));
}

#[test]
fn remove() {
    let mut entry = TreeSpaceEntry::new();
    assert!(entry.remove().is_none());
    entry.add(string("Hello World"));
    assert!(is(entry.remove(), &string("Hello World")));
    assert!(entry.remove().is_none());

    let mut test_struct_entry = TreeSpaceEntry::new();
    test_struct_entry.add(test_struct(3, "Tuan"));
    assert!(is(test_struct_entry.remove(), &test_struct(3, "Tuan")));
    assert!(test_struct_entry.remove().is_none());
}

#[test]
fn tree_entry_orders_by_key_and_takes_from_every_field() {
    let mut e = TreeSpaceEntry::new();
    e.add(test_struct(5, "Duane"));
    e.add(test_struct(3, "Tuan"));
    e.add(test_struct(3, "Minh"));
    assert!(is(e.get(), &test_struct(3, "Tuan")));
    let all = e.get_all();
    assert_eq!(all.len(), 3);
    assert!(all[0].equals(&test_struct(3, "Tuan")));
    assert!(all[1].equals(&test_struct(3, "Minh")));
    assert!(all[2].equals(&test_struct(5, "Duane")));
    assert!(e.can_remove());
    assert!(is(e.remove(), &test_struct(3, "Minh")));
    assert!(is(e.remove(), &test_struct(3, "Tuan")));
    assert!(is(e.remove(), &test_struct(5, "Duane")));
    assert!(e.remove().is_none());
    assert_eq!(e.remove_all().len(), 0);
}

#[test]
fn tree_entry_refuses_clashes() {
    let mut e = TreeSpaceEntry::new();
    assert!(e.can_add(&test_struct(1, "a")));
    e.add(test_struct(1, "a"));
    assert!(!e.can_add(&object(vec![("count", string("x"))])));
    assert!(!e.can_add(&num(4)));
    assert!(e.can_add(&object(vec![("other", num(1))])));
    let deep = object(vec![("a", object(vec![("b", object(vec![("c", num(1))]))]))]);
    assert!(!TreeSpaceEntry::new().can_add(&deep));
}

#[test]
fn tree_entry_cannot_take_a_document_missing_a_field() {
    let mut e = TreeSpaceEntry::new();
    e.add(object(vec![("Int", num(4))]));
    e.add(object(vec![("Struct.count", num(4)), ("Struct.name", string("Tuan"))]));
    assert!(!e.can_remove());
    let mut f = TreeSpaceEntry::new();
    f.add(object(vec![("Int", num(4))]));
    assert!(f.can_remove());
}

#[test]
fn shallow_flatten_lifts_one_level() {
    let v = object(vec![
        ("a", object(vec![("b", object(vec![("c", num(1))])), ("d", num(2))])),
        ("e", num(3)),
    ]);
    let expected = object(vec![
        ("a.b", object(vec![("c", num(1))])),
        ("a.d", num(2)),
        ("e", num(3)),
    ]);
    assert!(flatten(v.copy()).equals(&expected));
    // The plain fields come back first, then the rebuilt groups.
    let back = object(vec![
        ("e", num(3)),
        ("a", object(vec![("b", object(vec![("c", num(1))])), ("d", num(2))])),
    ]);
    assert!(deflatten(flatten(v.copy())).equals(&back));
}

#[test]
fn shallow_deflatten_keeps_first_occurrences() {
    let flat = object(vec![("x", num(1)), ("x", num(2)), ("a.b", num(3)), ("a.b", num(4)), ("a.c.d", num(5))]);
    let expected = object(vec![
        ("x", num(1)),
        ("a", object(vec![("b", num(3)), ("c", object(vec![("d", num(5))]))])),
    ]);
    assert!(deflatten(flat).equals(&expected));
}

#[test]
fn buckets_answer_range_queries_in_key_order() {
    let mut s: Vec<(i64, Vec<(u64, JsonValue)>)> = Vec::new();
    bucket_push(&mut s, 5, (1, num(50)));
    bucket_push(&mut s, 3, (2, num(30)));
    bucket_push(&mut s, 3, (3, num(31)));
    bucket_push(&mut s, 9, (4, num(90)));
    let keys: Vec<i64> = s.iter().map(|b| b.0).collect();
    assert_eq!(keys, vec![3, 5, 9]);
    assert_eq!(get_primitive_from_map(&s).unwrap().0, 2);
    let r = KeyRange { start: KeyBound::Included(4i64), end: KeyBound::Unbounded };
    assert_eq!(get_primitive_range(&s, &r).unwrap().0, 1);
    let ids: Vec<u64> = get_all_prims_range(&s, &r).iter().map(|d| d.0).collect();
    assert_eq!(ids, vec![1, 4]);
    assert_eq!(remove_primitive_range(&mut s, &r).unwrap().0, 1);
    assert_eq!(remove_primitive_from_map(&mut s).unwrap().0, 3);
    let all = KeyRange { start: KeyBound::Unbounded, end: KeyBound::Excluded(9i64) };
    let drained: Vec<u64> = remove_all_prims_range(&mut s, &all).iter().map(|d| d.0).collect();
    assert_eq!(drained, vec![2]);
    assert_eq!(get_primitive_from_map(&s).unwrap().0, 4);
    assert_eq!(s.len(), 3);
}

#[test]
fn tree_entry_answers_range_lookups() {
    let mut e = TreeSpaceEntry::new();
    e.add(test_struct(3, "Tuan"));
    e.add(test_struct(3, "Minh"));
    e.add(test_struct(5, "Duane"));
    let count = "count".to_string();
    let name = "name".to_string();
    let low = KeyRange { start: KeyBound::Included(2i64), end: KeyBound::Excluded(4i64) };
    assert!(is(e.get_range(&count, &low), &test_struct(3, "Tuan")));
    assert_eq!(e.get_all_range(&count, &low).len(), 2);
    let d_to_n = KeyRange { start: KeyBound::Included("D".to_string()), end: KeyBound::Excluded("N".to_string()) };
    assert_eq!(e.get_all_range(&name, &d_to_n).len(), 2);
    assert!(is(e.remove_range(&count, &low), &test_struct(3, "Minh")));
    assert_eq!(e.get_all_range(&name, &d_to_n).len(), 1);
    assert_eq!(e.remove_all_range(&count, &low).len(), 1);
    assert_eq!(e.get_all().len(), 1);
    let high = KeyRange { start: KeyBound::Included(4i64), end: KeyBound::Unbounded };
    assert_eq!(e.remove_all_range(&count, &high).len(), 1);
    assert!(e.get().is_none());
}

#[test]
fn tree_entry_answers_key_lookups() {
    let flag = |done: bool, n: u64| object(vec![("done", JsonValue::Bool(done)), ("n", num(n))]);
    let mut e = TreeSpaceEntry::new();
    e.add(flag(false, 1));
    e.add(flag(true, 2));
    e.add(flag(false, 3));
    let done = "done".to_string();
    let n = "n".to_string();
    assert_eq!(e.get_all_key(&done, &false).len(), 2);
    assert!(is(e.get_key(&done, &true), &flag(true, 2)));
    assert!(is(e.get_key(&n, &3i64), &flag(false, 3)));
    assert!(e.get_key(&n, &4i64).is_none());
    assert!(is(e.remove_key(&done, &true), &flag(true, 2)));
    assert!(e.get_key(&n, &2i64).is_none());
    assert_eq!(e.remove_all_key(&done, &false).len(), 2);
    assert_eq!(e.get_all().len(), 0);
}

fn float(f: f64) -> JsonValue {
    JsonValue::Number(JsonNumber::Float(f.to_bits()))
}

#[test]
fn tree_entry_holds_a_float() {
    let mut e = TreeSpaceEntry::new();
    e.add(float(3.5));
    assert!(is(e.get(), &float(3.5)));
    assert_eq!(e.get_all().len(), 1);
    assert!(is(e.remove(), &float(3.5)));
    assert!(e.get().is_none());
}

#[test]
fn tree_entry_keys_large_integers_as_floats() {
    let field = "n".to_string();
    let doc = |n: u64| object(vec![("n", num(n))]);
    let mut e = TreeSpaceEntry::new();
    e.add(doc(u64::MAX));
    e.add(doc((1u64 << 63) + 1024));
    let top = FloatKey { bits: (u64::MAX as f64).to_bits() };
    assert!(is(e.get_key(&field, &top), &doc(u64::MAX)));
    let tie = FloatKey { bits: (((1u64 << 63) + 1024) as f64).to_bits() };
    assert_eq!(tie.bits, 0x43E0_0000_0000_0000);
    assert!(is(e.get_key(&field, &tie), &doc((1u64 << 63) + 1024)));
    assert!(is(e.get(), &doc((1u64 << 63) + 1024)));
}

#[test]
fn tree_entry_reads_an_object_led_by_a_float() {
    let student = object(vec![("gpa", float(3.0)), ("person", test_struct(3, "Tuan"))]);
    let mut e = TreeSpaceEntry::new();
    e.add(student.copy());
    assert!(is(e.get(), &student));
    let gpa = "gpa".to_string();
    let range = KeyRange {
        start: KeyBound::Included(FloatKey { bits: 2.5f64.to_bits() }),
        end: KeyBound::Unbounded,
    };
    assert!(is(e.get_range(&gpa, &range), &student));
    assert!(is(e.remove(), &student));
    assert!(e.get().is_none());
}

#[test]
fn tree_entry_remove_all_takes_every_document() {
    let mut e = TreeSpaceEntry::new();
    e.add(test_struct(5, "Duane"));
    e.add(test_struct(3, "Tuan"));
    e.add(test_struct(3, "Minh"));
    let all = e.remove_all();
    assert_eq!(all.len(), 3);
    assert!(all[0].equals(&test_struct(3, "Tuan")));
    assert!(all[1].equals(&test_struct(3, "Minh")));
    assert!(all[2].equals(&test_struct(5, "Duane")));
    assert!(e.get().is_none());
    assert_eq!(e.get_all().len(), 0);
    assert_eq!(e.remove_all().len(), 0);
    e.add(num(7));
    assert!(is(e.get(), &num(7)));
}

#[test]
fn remove_value_arc_takes_the_document_out_of_every_field() {
    let a = test_struct(3, "Tuan");
    let b = test_struct(3, "Minh");
    let c = test_struct(5, "Tuan");
    let mut root = TreeNode::new();
    root.add(&a, 1);
    root.add(&b, 2);
    root.add(&c, 3);
    let mut ch = match root {
        TreeNode::Branch(ch) => ch,
        _ => panic!("an object makes a branch"),
    };
    remove_value_arc(&mut ch, 0, &(1, a.copy()));
    assert_eq!(ch.len(), 2);
    for (_, node) in ch.iter() {
        let ids: Vec<u64> = node.get_all().iter().map(|d| d.0).collect();
        assert!(!ids.contains(&1));
        assert_eq!(ids.len(), 2);
    }
    let counts: Vec<u64> = ch[0].1.get_all().iter().map(|d| d.0).collect();
    assert_eq!(counts, vec![2, 3]);
    let names: Vec<u64> = ch[1].1.get_all().iter().map(|d| d.0).collect();
    assert_eq!(names, vec![2, 3]);
    let taken = remove_object(&mut ch).unwrap();
    assert_eq!(taken.0, 2);
    assert!(taken.1.equals(&b));
}

#[test]
fn a_reversed_range_on_an_empty_entry_finds_nothing() {
    let count = "count".to_string();
    let reversed = KeyRange { start: KeyBound::Included(5i64), end: KeyBound::Included(2i64) };
    let mut e = TreeSpaceEntry::new();
    assert!(e.get_range(&count, &reversed).is_none());
    assert_eq!(e.get_all_range(&count, &reversed).len(), 0);
    assert!(e.remove_range(&count, &reversed).is_none());
    assert_eq!(e.remove_all_range(&count, &reversed).len(), 0);
}

#[test]
fn a_flat_object_comes_back_from_a_new_entry() {
    let doc = object(vec![("done", JsonValue::Bool(true)), ("n", num(2)), ("tag", string("x"))]);
    let mut e = TreeSpaceEntry::new();
    e.add(doc.copy());
    assert!(is(e.get(), &doc));
}

