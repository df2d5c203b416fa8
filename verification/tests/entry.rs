use object_space::object_entry::ObjectSpaceEntry;
use object_space::type_box::Type;

#[test]
fn get_all() {
    let mut entry = ObjectSpaceEntry::<String>::new();
    assert_eq!(entry.get_all().len(), 0);
    entry.add("Hello".to_string());
    entry.add("World".to_string());
    assert_eq!(entry.get_all(), vec!["Hello", "World"]);
    assert_ne!(entry.len(), 0);
}

#[test]
fn remove_all() {
    let mut entry = ObjectSpaceEntry::<String>::new();
    assert_eq!(entry.remove_all().len(), 0);
    entry.add("Hello".to_string());
    entry.add("World".to_string());
    assert_eq!(entry.remove_all(), vec!["Hello", "World"]);
    assert_eq!(entry.len(), 0);
}

#[test]
fn get_returns_first_and_remove_returns_last() {
    let mut entry = ObjectSpaceEntry::<i64>::new();
    assert_eq!(entry.get(), None);
    assert_eq!(entry.remove(), None);
    entry.add(1);
    entry.add(2);
    entry.add(3);
    assert_eq!(entry.get(), Some(&1));
    assert_eq!(entry.remove(), Some(3));
    assert_eq!(entry.get_all(), vec![&1, &2]);
    assert_eq!(entry.len(), 2);
}

#[test]
fn is_type() {
    let string_type = Type::from_struct(&String::from("Hello World"));
    let str_type = Type::from_struct(&"Hello World");
    assert!(string_type.is_type::<String>());
    assert!(!str_type.is_type::<String>());
}

#[test]
fn new_type_marker_names_its_type() {
    let t = Type::<i64>::new();
    assert!(t.is_type::<i64>());
    assert!(!t.is_type::<u64>());
}
