//! Variants of a build.
use tup::db::variant::{parse_tup_config, Variant, VariantRegistry};
use tup::types::TupId;

#[test]
fn test_variant_root() {
    let v = Variant::new_root(TupId::new(1));
    assert!(v.root_variant);
    assert!(v.enabled);
}

#[test]
fn test_variant_non_root() {
    let v = Variant::new(TupId::new(10), TupId::new(10), "build-debug");
    assert!(!v.root_variant);
    assert_eq!(v.variant_dir, "build-debug");
}

#[test]
fn test_variant_config() {
    let mut v = Variant::new_root(TupId::new(1));
    v.set_config("CC", "gcc");
    assert_eq!(v.get_config("CC"), Some("gcc"));
    assert_eq!(v.get_config("CXX"), None);
}

#[test]
fn test_registry_add_search() {
    let mut reg = VariantRegistry::new();
    reg.add_root(TupId::new(1));
    reg.add(TupId::new(10), TupId::new(10), "debug");
    reg.add(TupId::new(20), TupId::new(20), "release");

    assert_eq!(reg.len(), 3);
    assert!(reg.root().unwrap().root_variant);
    assert!(reg.search(TupId::new(10)).is_some());
    assert!(reg.search(TupId::new(99)).is_none());
}

#[test]
fn test_registry_non_root() {
    let mut reg = VariantRegistry::new();
    reg.add_root(TupId::new(1));
    reg.add(TupId::new(10), TupId::new(10), "debug");

    let non_root = reg.non_root_variants();
    assert_eq!(non_root.len(), 1);
    assert!(!non_root[0].root_variant);
}

#[test]
fn test_registry_remove() {
    let mut reg = VariantRegistry::new();
    reg.add_root(TupId::new(1));
    reg.add(TupId::new(10), TupId::new(10), "debug");

    reg.remove(TupId::new(10));
    assert!(reg.search(TupId::new(10)).is_none());
    assert_eq!(reg.len(), 1);
}

#[test]
fn test_parse_tup_config() {
    let content = "# Build configuration\nCONFIG_CC=gcc\nCONFIG_DEBUG=y\n\n# Empty\n";
    let vars = parse_tup_config(content);
    assert_eq!(vars.get(&"CONFIG_CC".to_string()).unwrap(), "gcc");
    assert_eq!(vars.get(&"CONFIG_DEBUG".to_string()).unwrap(), "y");
    assert_eq!(vars.len(), 2);
}

#[test]
fn test_parse_tup_config_empty() {
    let vars = parse_tup_config("");
    assert!(vars.is_empty());
}

#[test]
fn test_parse_tup_config_comments_only() {
    let vars = parse_tup_config("# comment\n# another\n");
    assert!(vars.is_empty());
}
