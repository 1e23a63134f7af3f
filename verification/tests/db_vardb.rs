//! Variables of the database.
use tup::db::vardb::VarDb;
use tup::types::TupId;

#[test]
fn test_set_and_get() {
    let mut vdb = VarDb::new();
    vdb.set("CC", "gcc", None);

    assert_eq!(vdb.get_value("CC"), "gcc");
    assert!(vdb.get("CC").is_some());
    assert!(vdb.get("CXX").is_none());
}

#[test]
fn test_set_with_tent_id() {
    let mut vdb = VarDb::new();
    vdb.set("MY_VAR", "value", Some(TupId::new(42)));

    let entry = vdb.get("MY_VAR").unwrap();
    assert_eq!(entry.tent_id, Some(TupId::new(42)));
}

#[test]
fn test_append() {
    let mut vdb = VarDb::new();
    vdb.set("CFLAGS", "-Wall", None);
    vdb.append("CFLAGS", "-O2");

    assert_eq!(vdb.get_value("CFLAGS"), "-Wall -O2");
}

#[test]
fn test_append_new_var() {
    let mut vdb = VarDb::new();
    vdb.append("NEW", "value");
    assert_eq!(vdb.get_value("NEW"), "value");
}

#[test]
fn test_copy_value() {
    let mut vdb = VarDb::new();
    vdb.set("X", "hello", None);

    let mut dest = String::new();
    assert!(vdb.copy_value("X", &mut dest));
    assert_eq!(dest, "hello");

    let mut dest2 = String::new();
    assert!(!vdb.copy_value("Y", &mut dest2));
    assert!(dest2.is_empty());
}

#[test]
fn test_remove() {
    let mut vdb = VarDb::new();
    vdb.set("X", "1", None);
    assert!(vdb.remove("X"));
    assert!(!vdb.remove("X"));
    assert!(vdb.get("X").is_none());
}

#[test]
fn test_len_and_empty() {
    let mut vdb = VarDb::new();
    assert!(vdb.is_empty());
    assert_eq!(vdb.len(), 0);

    vdb.set("A", "1", None);
    vdb.set("B", "2", None);
    assert_eq!(vdb.len(), 2);
    assert!(!vdb.is_empty());
}

#[test]
fn test_overwrite() {
    let mut vdb = VarDb::new();
    vdb.set("X", "old", None);
    vdb.set("X", "new", None);
    assert_eq!(vdb.get_value("X"), "new");
    assert_eq!(vdb.len(), 1);
}

#[test]
fn test_iter_sorted() {
    let mut vdb = VarDb::new();
    vdb.set("C", "3", None);
    vdb.set("A", "1", None);
    vdb.set("B", "2", None);

    let names: Vec<&str> = vdb.iter().into_iter().map(|(k, _)| k).collect();
    assert_eq!(names, vec!["A", "B", "C"]);
}

#[test]
fn test_compare() {
    let mut a = VarDb::new();
    a.set("X", "1", None);
    a.set("Y", "2", None);
    a.set("Z", "3", None);

    let mut b = VarDb::new();
    b.set("Y", "2", None);
    b.set("Z", "changed", None);
    b.set("W", "4", None);

    let diff = a.compare(&b);
    let only_a: Vec<String> = diff.only_in_a.iter().map(|e| e.name.clone()).collect();
    let only_b: Vec<String> = diff.only_in_b.iter().map(|e| e.name.clone()).collect();
    let both: Vec<(String, bool)> = diff
        .in_both
        .iter()
        .map(|(ea, eb)| (ea.name.clone(), ea.value == eb.value))
        .collect();

    assert_eq!(only_a, vec!["X"]);
    assert_eq!(only_b, vec!["W"]);
    assert_eq!(
        both,
        vec![("Y".to_string(), true), ("Z".to_string(), false)]
    );
}

#[test]
fn test_get_value_default() {
    let vdb = VarDb::new();
    assert_eq!(vdb.get_value("MISSING"), "");
}
