//! Glob patterns.
use tup::parser::glob::{
    expand_globs, glob_dir, glob_file, glob_pattern_match, is_glob, Listing, Listings,
};

#[test]
fn test_glob_pattern_match_star() {
    assert!(glob_pattern_match("*.c", "foo.c"));
    assert!(glob_pattern_match("*.c", "bar.c"));
    assert!(!glob_pattern_match("*.c", "foo.h"));
    assert!(glob_pattern_match("*", "anything"));
    assert!(glob_pattern_match("foo*", "foobar"));
    assert!(glob_pattern_match("*bar", "foobar"));
    assert!(glob_pattern_match("f*r", "foobar"));
}

#[test]
fn test_glob_pattern_match_question() {
    assert!(glob_pattern_match("?.c", "a.c"));
    assert!(!glob_pattern_match("?.c", "ab.c"));
    assert!(glob_pattern_match("??.c", "ab.c"));
}

#[test]
fn test_glob_pattern_match_bracket() {
    assert!(glob_pattern_match("[abc].c", "a.c"));
    assert!(glob_pattern_match("[abc].c", "b.c"));
    assert!(!glob_pattern_match("[abc].c", "d.c"));
}

#[test]
fn test_glob_pattern_match_range() {
    assert!(glob_pattern_match("[a-z].c", "m.c"));
    assert!(!glob_pattern_match("[a-z].c", "M.c"));
}

#[test]
fn test_glob_pattern_match_negate() {
    assert!(!glob_pattern_match("[^abc].c", "a.c"));
    assert!(glob_pattern_match("[^abc].c", "d.c"));
}

#[test]
fn test_glob_pattern_exact() {
    assert!(glob_pattern_match("foo.c", "foo.c"));
    assert!(!glob_pattern_match("foo.c", "bar.c"));
}

#[test]
fn test_glob_pattern_complex() {
    assert!(glob_pattern_match("test_*.c", "test_main.c"));
    assert!(glob_pattern_match("test_*.c", "test_utils.c"));
    assert!(!glob_pattern_match("test_*.c", "main.c"));
}

#[test]
fn test_is_glob() {
    assert!(is_glob("*.c"));
    assert!(is_glob("test?.c"));
    assert!(is_glob("[abc].c"));
    assert!(!is_glob("foo.c"));
    assert!(!is_glob("src/main.c"));
}

fn listed(dirs: &[(&str, &[&str])]) -> Listings {
    let mut out = Listings::new();
    for (dir, names) in dirs {
        let names: Vec<String> = names.iter().map(|n| n.to_string()).collect();
        out.insert(dir.to_string(), Listing::Names(names));
    }
    out
}

#[test]
fn test_expand_globs_filesystem() {
    let there = listed(&[("", &["b.c", "c.h", ".hidden", "a.c"])]);
    let patterns = vec!["*.c".to_string()];
    let result = expand_globs(&patterns, &there).unwrap();
    assert_eq!(result, vec!["a.c", "b.c"]);
}

#[test]
fn test_expand_globs_no_match() {
    let there = listed(&[("", &[])]);
    let patterns = vec!["*.xyz".to_string()];
    let result = expand_globs(&patterns, &there).unwrap();
    assert!(result.is_empty());
}

#[test]
fn test_expand_globs_mixed() {
    let there = listed(&[("", &["a.c", "b.c"])]);
    let patterns = vec!["explicit.c".to_string(), "*.c".to_string()];
    let result = expand_globs(&patterns, &there).unwrap();
    assert_eq!(result, vec!["explicit.c", "a.c", "b.c"]);
}

#[test]
fn test_expand_globs_hidden_excluded() {
    let there = listed(&[("", &[".gitignore", "visible.c"])]);
    let patterns = vec!["*".to_string()];
    let result = expand_globs(&patterns, &there).unwrap();
    assert_eq!(result, vec!["visible.c"]);
}

#[test]
fn test_expand_globs_subdir() {
    let there = listed(&[("src", &["main.c", "util.c"])]);
    let patterns = vec!["src/*.c".to_string()];
    let result = expand_globs(&patterns, &there).unwrap();
    assert_eq!(result, vec!["src/main.c", "src/util.c"]);
}

#[test]
fn globs_in_a_missing_directory_match_nothing() {
    let there = listed(&[("", &["a.c"])]);
    let patterns = vec!["lib/*.c".to_string()];
    let result = expand_globs(&patterns, &there).unwrap();
    assert!(result.is_empty());
}

#[test]
fn globs_in_an_unreadable_directory_fail() {
    let mut there = Listings::new();
    there.insert("lib".to_string(), Listing::Failed("denied".to_string()));
    let patterns = vec!["lib/*.c".to_string()];
    assert!(expand_globs(&patterns, &there).is_err());
}

#[test]
fn a_star_matches_any_prefix() {
    assert!(glob_pattern_match("*.o", ".o"));
    assert!(glob_pattern_match("*.o", "a.b.o"));
    assert!(glob_pattern_match("*", ""));
}

#[test]
fn the_parts_of_a_pattern() {
    assert_eq!(glob_dir("src/lib/*.c"), "src/lib");
    assert_eq!(glob_file("src/lib/*.c"), "*.c");
    assert_eq!(glob_dir("*.c"), "");
    assert_eq!(glob_file("*.c"), "*.c");
}

#[test]
fn what_follows_a_star_matches_an_end() {
    assert!(glob_pattern_match("*[0-9].c", "a.c7.c"));
    assert!(!glob_pattern_match("*[0-9].c", "a7.cc"));
    let text = "ab.cab.c";
    let ends = (0..=text.len()).filter(|k| glob_pattern_match("b.c", &text[*k..])).count();
    assert_eq!(ends, 1);
    assert_eq!(glob_pattern_match("*b.c", text), ends > 0);
}
