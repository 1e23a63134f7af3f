//! Files of a project.
use tup::ordmap::OrdMap;
use tup::platform::scanner::{
    diff_scan, find_tupfiles, scan_directory, ScanEntry, ScanKind, ScannedFile,
};

fn file(name: &str) -> ScanEntry {
    ScanEntry { name: name.to_string(), kind: ScanKind::File { mtime: 9, mtime_ns: 0 } }
}

fn dir(name: &str, entries: Vec<ScanEntry>) -> ScanEntry {
    ScanEntry { name: name.to_string(), kind: ScanKind::Dir { entries } }
}

#[test]
fn test_scan_directory() {
    let there = vec![
        file("a.c"),
        file("b.c"),
        dir("src", vec![file("lib.c")]),
        dir(".git", vec![file("config")]),
    ];
    let result = scan_directory(&there);
    let paths: Vec<&str> = result.new_files.iter().map(|f| f.path.as_str()).collect();
    assert!(paths.contains(&"a.c"));
    assert!(paths.contains(&"b.c"));
    assert!(paths.contains(&"src/lib.c"));
    assert!(!paths.contains(&".git/config"));
    assert!(result.directories.contains(&"src".to_string()));
}

#[test]
fn test_scan_skips_tup_dir() {
    let there = vec![dir(".tup", vec![file("db")]), file("Tupfile")];
    let result = scan_directory(&there);
    let paths: Vec<&str> = result.new_files.iter().map(|f| f.path.as_str()).collect();
    assert!(paths.contains(&"Tupfile"));
    assert!(!paths.iter().any(|p| p.contains(".tup")));
}

#[test]
fn test_scan_mtimes() {
    let result = scan_directory(&vec![file("test.c")]);
    assert_eq!(result.new_files.len(), 1);
    assert!(result.new_files[0].mtime > 0);
}

#[test]
fn test_diff_scan() {
    let scanned = vec![
        ScannedFile { path: "a.c".to_string(), mtime: 100, mtime_ns: 0 },
        ScannedFile { path: "b.c".to_string(), mtime: 200, mtime_ns: 0 },
        ScannedFile { path: "new.c".to_string(), mtime: 300, mtime_ns: 0 },
    ];

    let mut known = OrdMap::new();
    known.insert("a.c".to_string(), ());
    known.insert("b.c".to_string(), ());
    known.insert("deleted.c".to_string(), ());

    let mut mtimes = OrdMap::new();
    mtimes.insert("a.c".to_string(), (100i64, 0i64));
    mtimes.insert("b.c".to_string(), (150i64, 0i64)); // Different mtime

    let (new, modified, deleted) = diff_scan(&scanned, &known, &mtimes);
    assert_eq!(new.len(), 1);
    assert_eq!(new[0].path, "new.c");
    assert_eq!(modified.len(), 1);
    assert_eq!(modified[0].path, "b.c");
    assert_eq!(deleted, vec!["deleted.c"]);
}

#[test]
fn test_find_tupfiles() {
    let there = vec![
        file("Tupfile"),
        dir(
            "src",
            vec![file("Tupfile"), dir("sub", vec![file("Tupfile")]), file("notup.txt")],
        ),
    ];
    let tupfiles = find_tupfiles(&there);
    assert_eq!(tupfiles.len(), 3);
    assert!(tupfiles.contains(&"Tupfile".to_string()));
    assert!(tupfiles.contains(&"src/Tupfile".to_string()));
    assert!(tupfiles.contains(&"src/sub/Tupfile".to_string()));
}

#[test]
fn test_find_tupfiles_empty() {
    assert!(find_tupfiles(&vec![]).is_empty());
}

#[test]
fn test_scan_empty_dir() {
    let result = scan_directory(&vec![]);
    assert!(result.new_files.is_empty());
    assert!(result.directories.is_empty());
}

#[test]
fn known_files_are_not_reported() {
    let result = scan_directory(&vec![file("a.c"), dir("d", vec![file("b.c")])]);
    let mut known = OrdMap::new();
    let mut mtimes = OrdMap::new();
    for f in &result.new_files {
        known.insert(f.path.clone(), ());
        mtimes.insert(f.path.clone(), (f.mtime, f.mtime_ns));
    }
    let (new, modified, deleted) = diff_scan(&result.new_files, &known, &mtimes);
    assert!(new.is_empty());
    assert!(modified.is_empty());
    assert!(deleted.is_empty());
}

#[test]
fn tupfiles_come_in_order() {
    let there = vec![
        dir("z", vec![file("Tupfile")]),
        dir("a", vec![dir("b", vec![file("Tupfile")]), file("Tupfile.lua"), file("Tupfile")]),
        dir("a-b", vec![file("Tupfile")]),
        file("Tupfile"),
    ];
    assert_eq!(
        find_tupfiles(&there),
        vec!["Tupfile", "a/Tupfile", "a/Tupfile.lua", "a/b/Tupfile", "a-b/Tupfile", "z/Tupfile"]
    );
}
