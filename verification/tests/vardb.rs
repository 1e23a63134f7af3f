//! Variables of a Tupfile.
use tup::parser::vardb::ParseVarDb;

#[test]
fn vardb_test_set_and_get() {
    let mut vdb = ParseVarDb::new();
    vdb.set("CC", "gcc");
    assert_eq!(vdb.get("CC"), Some("gcc"));
}

#[test]
fn vardb_test_append() {
    let mut vdb = ParseVarDb::new();
    vdb.set("CFLAGS", "-Wall");
    vdb.append("CFLAGS", "-O2");
    assert_eq!(vdb.get("CFLAGS"), Some("-Wall -O2"));
}

#[test]
fn test_expand_simple() {
    let mut vdb = ParseVarDb::new();
    vdb.set("CC", "gcc");
    assert_eq!(vdb.expand("$(CC) -c foo.c"), "gcc -c foo.c");
}

#[test]
fn test_expand_multiple() {
    let mut vdb = ParseVarDb::new();
    vdb.set("CC", "gcc");
    vdb.set("CFLAGS", "-Wall -O2");
    assert_eq!(vdb.expand("$(CC) $(CFLAGS) -c foo.c"), "gcc -Wall -O2 -c foo.c");
}

#[test]
fn test_expand_unknown() {
    let vdb = ParseVarDb::new();
    assert_eq!(vdb.expand("$(UNKNOWN)"), "");
}

#[test]
fn test_expand_no_vars() {
    let vdb = ParseVarDb::new();
    assert_eq!(vdb.expand("hello world"), "hello world");
}

#[test]
fn test_expand_dollar_without_paren() {
    let vdb = ParseVarDb::new();
    assert_eq!(vdb.expand("$5 price"), "$5 price");
}

#[test]
fn lone_signs_are_no_references() {
    let mut vdb = ParseVarDb::new();
    vdb.set("A", "1");
    vdb.set_config("CONFIG_B", "y");
    assert_eq!(vdb.expand("cost $5 and a@b, \\$ $ (x) @"), "cost $5 and a@b, \\$ $ (x) @");
    assert_eq!(vdb.expand("$(A)@(CONFIG_B)@(CONFIG_C)."), "1y.");
}
