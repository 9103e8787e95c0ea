use zapive::table::{KeySet, Table};

#[test]
fn tables_keep_one_value_per_key_in_insertion_order() {
    let mut t: Table<u32> = Table::new();
    t.insert("b".into(), 1);
    t.insert("a".into(), 2);
    t.insert("b".into(), 3);
    assert_eq!(t.len(), 2);
    assert_eq!(t.key_at(0), "b");
    assert_eq!(*t.value_at(0), 3);
    assert_eq!(t.get("a"), Some(&2));
    assert_eq!(t.remove("a"), Some(2));
    assert!(!t.contains_key("a"));
    assert_eq!(t.remove("a"), None);
}

#[test]
fn key_sets_list_each_key_once() {
    let mut s = KeySet::new();
    assert!(s.insert("x".into()));
    assert!(!s.insert("x".into()));
    assert!(s.insert("y".into()));
    assert_eq!(s.to_vec(), vec!["x".to_string(), "y".to_string()]);
    assert!(s.remove("x"));
    assert!(!s.contains("x"));
    assert_eq!(s.to_vec(), vec!["y".to_string()]);
}
