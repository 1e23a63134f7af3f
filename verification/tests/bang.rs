//! Bang macros.
use tup::parser::bang::BangDb;

#[test]
fn test_define_simple_macro() {
    let mut db = BangDb::new();
    db.define("cc", "|> gcc -c %f -o %o |> %B.o").unwrap();

    let mac = db.get("cc").unwrap();
    assert_eq!(mac.command, "gcc -c %f -o %o");
    assert_eq!(mac.outputs, vec!["%B.o"]);
    assert!(!mac.foreach);
}

#[test]
fn test_define_foreach_macro() {
    let mut db = BangDb::new();
    db.define("cc", "foreach |> gcc -c %f -o %o |> %B.o")
        .unwrap();

    let mac = db.get("cc").unwrap();
    assert!(mac.foreach);
}

#[test]
fn test_define_macro_with_input() {
    let mut db = BangDb::new();
    db.define("link", "*.o |> gcc %f -o %o |> myapp").unwrap();

    let mac = db.get("link").unwrap();
    assert_eq!(mac.input, Some("*.o".to_string()));
}

#[test]
fn test_define_macro_with_extras() {
    let mut db = BangDb::new();
    db.define("cc", "|> gcc -c %f -o %o -MD -MF %O.d |> %B.o | %B.o.d")
        .unwrap();

    let mac = db.get("cc").unwrap();
    assert_eq!(mac.outputs, vec!["%B.o"]);
    assert_eq!(mac.extra_outputs, vec!["%B.o.d"]);
}

#[test]
fn test_define_alias() {
    let mut db = BangDb::new();
    db.define("cc", "|> gcc -c %f -o %o |> %B.o").unwrap();
    db.define("compile", "!cc").unwrap();

    let mac = db.get("compile").unwrap();
    assert_eq!(mac.command, "gcc -c %f -o %o");
}

#[test]
fn test_alias_unknown() {
    let mut db = BangDb::new();
    let result = db.define("foo", "!unknown");
    assert!(result.is_err());
}

#[test]
fn test_expand_rule_basic() {
    let mut db = BangDb::new();
    db.define("cc", "|> gcc -c %f -o %o |> %B.o").unwrap();

    let rule = db
        .expand_rule("cc", &["main.c".to_string()], &[], false, 1)
        .unwrap();

    assert_eq!(rule.inputs, vec!["main.c"]);
    assert_eq!(rule.command.command, "gcc -c %f -o %o");
    assert_eq!(rule.outputs, vec!["%B.o"]);
}

#[test]
fn test_expand_rule_override_outputs() {
    let mut db = BangDb::new();
    db.define("cc", "|> gcc -c %f -o %o |> %B.o").unwrap();

    let rule = db
        .expand_rule(
            "cc",
            &["main.c".to_string()],
            &["custom.o".to_string()],
            false,
            1,
        )
        .unwrap();

    assert_eq!(rule.outputs, vec!["custom.o"]);
}

#[test]
fn test_expand_rule_macro_inputs() {
    let mut db = BangDb::new();
    db.define("link", "*.o |> gcc %f -o %o |> myapp").unwrap();

    let rule = db.expand_rule("link", &[], &[], false, 1).unwrap();
    assert_eq!(rule.inputs, vec!["*.o"]);
}

#[test]
fn test_lookup_with_bang_prefix() {
    let mut db = BangDb::new();
    db.define("cc", "|> gcc -c %f -o %o |> %B.o").unwrap();

    assert!(db.get("!cc").is_some());
    assert!(db.get("cc").is_some());
}

#[test]
fn test_len() {
    let mut db = BangDb::new();
    assert!(db.is_empty());
    db.define("cc", "|> gcc |> out").unwrap();
    db.define("ld", "|> ld |> out").unwrap();
    assert_eq!(db.len(), 2);
}

#[test]
fn a_definition_counts_once() {
    let mut db = BangDb::new();
    assert!(db.is_empty());
    db.define("cc", "|> gcc %f |> %B.o").unwrap();
    db.define("!ld", "|> ld %f |> app").unwrap();
    assert_eq!(db.len(), 2);
    db.define("cc", "|> clang %f |> %B.o").unwrap();
    assert_eq!(db.len(), 2);
    assert_eq!(db.get("cc").unwrap().command, "clang %f");
    assert_eq!(db.get("ld").unwrap().name, "ld");
    assert!(db.define("as", "nothing").is_err());
    assert_eq!(db.len(), 2);
}
