//! Variables in files.
use tup::ordmap::OrdMap;
use tup::parser::varsed::{
    is_binary_vardict, parse_vardict, parse_vardict_text, vardict_in_order, varsed, varsed_binary,
};

fn make_vars(pairs: &[(&str, &str)]) -> OrdMap<String, String> {
    let mut out = OrdMap::new();
    for (k, v) in pairs {
        out.insert(k.to_string(), v.to_string());
    }
    out
}

fn value(vars: &OrdMap<String, String>, name: &str) -> Option<String> {
    vars.get(&name.to_string()).cloned()
}

#[test]
fn test_varsed_simple() {
    let vars = make_vars(&[("NAME", "world")]);
    assert_eq!(varsed("Hello @NAME@!", &vars), "Hello world!");
}

#[test]
fn test_varsed_multiple() {
    let vars = make_vars(&[("CC", "gcc"), ("FLAGS", "-O2")]);
    assert_eq!(varsed("@CC@ @FLAGS@", &vars), "gcc -O2");
}

#[test]
fn test_varsed_unknown() {
    let vars = make_vars(&[]);
    assert_eq!(varsed("@UNKNOWN@", &vars), "");
}

#[test]
fn test_varsed_no_vars() {
    let vars = make_vars(&[]);
    assert_eq!(varsed("hello world", &vars), "hello world");
}

#[test]
fn test_varsed_at_in_text() {
    let vars = make_vars(&[]);
    // Single @ without matching end
    assert_eq!(varsed("email@host", &vars), "email@host");
}

#[test]
fn test_varsed_empty_var() {
    let vars = make_vars(&[]);
    // @@ is an empty variable name — expands to empty
    assert_eq!(varsed("@@", &vars), "");
}

#[test]
fn test_varsed_multiline() {
    let vars = make_vars(&[("VERSION", "1.0"), ("NAME", "myapp")]);
    let input = "Name: @NAME@\nVersion: @VERSION@\n";
    let expected = "Name: myapp\nVersion: 1.0\n";
    assert_eq!(varsed(input, &vars), expected);
}

#[test]
fn test_varsed_adjacent() {
    let vars = make_vars(&[("A", "x"), ("B", "y")]);
    assert_eq!(varsed("@A@@B@", &vars), "xy");
}

#[test]
fn test_varsed_underscore_in_name() {
    let vars = make_vars(&[("MY_VAR", "value")]);
    assert_eq!(varsed("@MY_VAR@", &vars), "value");
}

#[test]
fn test_varsed_binary_mode_y() {
    let vars = make_vars(&[("FEATURE", "y")]);
    assert_eq!(
        varsed_binary("#define FEATURE @FEATURE@", &vars, true),
        "#define FEATURE 1"
    );
}

#[test]
fn test_varsed_binary_mode_n() {
    let vars = make_vars(&[("FEATURE", "n")]);
    assert_eq!(
        varsed_binary("#define FEATURE @FEATURE@", &vars, true),
        "#define FEATURE 0"
    );
}

#[test]
fn test_varsed_binary_mode_multi_char_unchanged() {
    let vars = make_vars(&[("VAL", "yes")]);
    // Multi-char values are NOT converted in binary mode
    assert_eq!(varsed_binary("@VAL@", &vars, true), "yes");
}

#[test]
fn test_varsed_binary_mode_off() {
    let vars = make_vars(&[("FEATURE", "y")]);
    // Without binary mode, 'y' stays as 'y'
    assert_eq!(varsed_binary("@FEATURE@", &vars, false), "y");
}

#[test]
fn test_parse_vardict_text() {
    let text = "CC=gcc\nFLAGS=-O2\nNAME=hello world\n";
    let vars = parse_vardict_text(text);
    assert_eq!(value(&vars, "CC").as_deref(), Some("gcc"));
    assert_eq!(value(&vars, "FLAGS").as_deref(), Some("-O2"));
    assert_eq!(value(&vars, "NAME").as_deref(), Some("hello world"));
}

#[test]
fn test_parse_vardict_text_empty() {
    let vars = parse_vardict_text("");
    assert!(vars.is_empty());
}

#[test]
fn test_parse_vardict_text_blank_lines() {
    let text = "\nCC=gcc\n\nFLAGS=-O2\n\n";
    let vars = parse_vardict_text(text);
    assert_eq!(vars.len(), 2);
}

#[test]
fn test_is_binary_vardict() {
    // Text format starts with ASCII
    assert!(!is_binary_vardict(b"CC=gcc\n"));
    assert!(!is_binary_vardict(b"FEATURE=y\n"));

    // Binary format starts with entry count (small number as u32)
    let mut binary_data = Vec::new();
    binary_data.extend_from_slice(&2u32.to_ne_bytes()); // 2 entries
    assert!(is_binary_vardict(&binary_data));

    // Empty or too short
    assert!(!is_binary_vardict(b""));
    assert!(!is_binary_vardict(b"ab"));
}

#[test]
fn a_text_file_of_variables() {
    let vars = parse_vardict(b"FEATURE_A=y\nFEATURE_B=n\nFEATURE_C=yes\n");
    assert_eq!(
        varsed_binary("A=@FEATURE_A@ B=@FEATURE_B@ C=@FEATURE_C@", &vars, true),
        "A=1 B=0 C=yes"
    );
    let vars = parse_vardict("NAME=t\u{fc}p\nVERSION=1.0\n".as_bytes());
    assert_eq!(varsed("@NAME@ version @VERSION@", &vars), "t\u{fc}p version 1.0");
    assert!(parse_vardict(b"A=\xff\xfe\n").is_empty());
}

#[test]
fn a_binary_file_of_variables() {
    // Two entries: their places, then the entries themselves.
    let mut data: Vec<u8> = Vec::new();
    data.extend_from_slice(&2u32.to_ne_bytes());
    data.extend_from_slice(&0u32.to_ne_bytes());
    data.extend_from_slice(&7u32.to_ne_bytes());
    data.extend_from_slice(b"CC=gcc\0OPT=-O2\0");
    assert!(is_binary_vardict(&data));
    assert!(vardict_in_order(&data));
    let vars = parse_vardict(&data);
    assert_eq!(value(&vars, "CC").as_deref(), Some("gcc"));
    assert_eq!(value(&vars, "OPT").as_deref(), Some("-O2"));
}

#[test]
fn text_without_markers_stays() {
    let vars = make_vars(&[("A", "x")]);
    assert_eq!(varsed("no markers here", &vars), "no markers here");
}
