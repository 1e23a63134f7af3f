//! Nodes in memory.
#![allow(unused_mut)]
use tup::db::entry::{EntryCache, TupEntry};
use tup::db::tables::TupDb;
use tup::types::{NodeType, TupId};

const DOT_DT: TupId = TupId(1);

fn make_entry(id: i64, dt: i64, name: &str, node_type: NodeType) -> TupEntry {
    TupEntry {
        id: TupId::new(id),
        dt: TupId::new(dt),
        node_type,
        mtime: -1,
        mtime_ns: 0,
        srcid: -1,
        name: name.to_string(),
        display: None,
        flags: None,
        refcount: 0,
    }
}

#[test]
fn test_entry_cache_add_and_find() {
    let mut cache = EntryCache::new();
    let entry = make_entry(1, 0, ".", NodeType::Dir);
    cache.add(entry);

    assert!(cache.find(TupId::new(1)).is_some());
    assert!(cache.find(TupId::new(999)).is_none());
}

#[test]
fn test_entry_cache_get_panics() {
    let mut cache = EntryCache::new();
    let entry = make_entry(1, 0, ".", NodeType::Dir);
    cache.add(entry);

    let _ = cache.get(TupId::new(1)); // Should not panic
}

#[test]
fn test_find_name_in_dir() {
    let mut cache = EntryCache::new();
    cache.add(make_entry(1, 0, ".", NodeType::Dir));
    cache.add(make_entry(2, 1, "src", NodeType::Dir));
    cache.add(make_entry(3, 2, "main.c", NodeType::File));

    let found = cache.find_name_in_dir(TupId::new(1), "src");
    assert!(found.is_some());
    assert_eq!(found.unwrap().id, TupId::new(2));

    let found = cache.find_name_in_dir(TupId::new(2), "main.c");
    assert!(found.is_some());
    assert_eq!(found.unwrap().id, TupId::new(3));

    assert!(cache
        .find_name_in_dir(TupId::new(1), "nonexistent")
        .is_none());
}

#[test]
fn test_entry_cache_remove() {
    let mut cache = EntryCache::new();
    cache.add(make_entry(1, 0, ".", NodeType::Dir));
    cache.add(make_entry(5, 1, "file.c", NodeType::File));

    cache.remove(TupId::new(5)).unwrap();
    assert!(cache.find(TupId::new(5)).is_none());
    assert!(cache.find_name_in_dir(TupId::new(1), "file.c").is_none());
}

#[test]
fn test_entry_cache_remove_with_refcount() {
    let mut cache = EntryCache::new();
    let entry = make_entry(5, 1, "file.c", NodeType::File);
    cache.add(entry);
    cache.add_ref(TupId::new(5));

    let result = cache.remove(TupId::new(5));
    assert!(result.is_err());
}

#[test]
fn test_entry_cache_remove_with_children() {
    let mut cache = EntryCache::new();
    cache.add(make_entry(1, 0, ".", NodeType::Dir));
    cache.add(make_entry(5, 1, "file.c", NodeType::File));

    let result = cache.remove(TupId::new(1));
    assert!(result.is_err()); // Has child entry 5
}

#[test]
fn test_change_name() {
    let mut cache = EntryCache::new();
    cache.add(make_entry(1, 0, ".", NodeType::Dir));
    cache.add(make_entry(2, 1, "old.c", NodeType::File));

    cache
        .change_name(TupId::new(2), "new.c", TupId::new(1))
        .unwrap();

    assert!(cache.find_name_in_dir(TupId::new(1), "old.c").is_none());
    assert!(cache.find_name_in_dir(TupId::new(1), "new.c").is_some());
    assert_eq!(cache.get(TupId::new(2)).name, "new.c");
}

#[test]
fn test_change_display() {
    let mut cache = EntryCache::new();
    cache.add(make_entry(1, 0, "cmd", NodeType::Cmd));

    cache.change_display(TupId::new(1), Some("CC main.c"));
    assert_eq!(
        cache.get(TupId::new(1)).display,
        Some("CC main.c".to_string())
    );
}

#[test]
fn test_change_type() {
    let mut cache = EntryCache::new();
    cache.add(make_entry(1, 0, "ghost", NodeType::GhostNode));

    cache.change_type(TupId::new(1), NodeType::File);
    assert_eq!(cache.get(TupId::new(1)).node_type, NodeType::File);
}

#[test]
fn test_refcount() {
    let mut entry = make_entry(1, 0, ".", NodeType::Dir);
    assert_eq!(entry.ref_count(), 0);

    entry.add_ref();
    entry.add_ref();
    assert_eq!(entry.ref_count(), 2);

    entry.del_ref();
    assert_eq!(entry.ref_count(), 1);
}

#[test]
fn test_is_transient() {
    let mut entry = make_entry(1, 0, "output", NodeType::Generated);
    assert!(!entry.is_transient());

    entry.flags = Some("t".to_string());
    assert!(entry.is_transient());

    entry.flags = Some("tj".to_string());
    assert!(entry.is_transient());
}

#[test]
fn test_is_compiledb() {
    let mut entry = make_entry(1, 0, "cmd", NodeType::Cmd);
    assert!(!entry.is_compiledb());

    entry.flags = Some("j".to_string());
    assert!(entry.is_compiledb());
}

#[test]
fn test_full_path() {
    let mut cache = EntryCache::new();
    cache.add(make_entry(1, 0, ".", NodeType::Dir));
    cache.add(make_entry(2, 1, "src", NodeType::Dir));
    cache.add(make_entry(3, 2, "lib", NodeType::Dir));
    cache.add(make_entry(4, 3, "main.c", NodeType::File));

    assert_eq!(
        cache.full_path(TupId::new(4)),
        Some("src/lib/main.c".to_string())
    );
    assert_eq!(cache.full_path(TupId::new(2)), Some("src".to_string()));
}

#[test]
fn test_relative_path() {
    let mut cache = EntryCache::new();
    cache.add(make_entry(1, 0, ".", NodeType::Dir));
    cache.add(make_entry(2, 1, "src", NodeType::Dir));
    cache.add(make_entry(3, 1, "build", NodeType::Dir));
    cache.add(make_entry(4, 2, "lib", NodeType::Dir));

    let rel = cache.relative_path(TupId::new(4), TupId::new(3));
    assert_eq!(rel, Some("../../build".to_string()));

    let rel = cache.relative_path(TupId::new(2), TupId::new(2));
    assert_eq!(rel, Some(".".to_string()));
}

#[test]
fn test_load_from_db() {
    let mut db = TupDb::create_in_memory();
    let mut cache = EntryCache::new();

    // Load the root node
    cache.load(&db, DOT_DT).unwrap();
    let root = cache.find(DOT_DT).unwrap();
    assert_eq!(root.name, ".");
    assert_eq!(root.node_type, NodeType::Dir);
}

#[test]
fn test_load_with_parent_chain() {
    let mut db = TupDb::create_in_memory();
    db.begin().unwrap();

    // Create a directory under root
    let dir_id = db
        .node_insert(DOT_DT, "mydir", NodeType::Dir, -1, 0, -1, None, None)
        .unwrap();
    // Create a file under that directory
    let file_id = db
        .node_insert(dir_id, "hello.c", NodeType::File, 1000, 0, -1, None, None)
        .unwrap();
    db.commit().unwrap();

    let mut cache = EntryCache::new();
    // Loading the file should also load its parent chain
    cache.load(&db, file_id).unwrap();

    assert!(cache.find(file_id).is_some());
    assert!(cache.find(dir_id).is_some());
    assert!(cache.find(DOT_DT).is_some());

    let file = cache.get(file_id);
    assert_eq!(file.name, "hello.c");
    assert_eq!(file.dt, dir_id);

    // Full path should work
    assert_eq!(cache.full_path(file_id), Some("mydir/hello.c".to_string()));
}

#[test]
fn test_load_dir() {
    let mut db = TupDb::create_in_memory();
    db.begin().unwrap();
    db.node_insert(DOT_DT, "a.c", NodeType::File, 0, 0, -1, None, None)
        .unwrap();
    db.node_insert(DOT_DT, "b.c", NodeType::File, 0, 0, -1, None, None)
        .unwrap();
    db.commit().unwrap();

    let mut cache = EntryCache::new();
    let ids = cache.load_dir(&db, DOT_DT);

    // Should have loaded the virtual dirs ($, /, ^) plus our two files
    assert!(ids.len() >= 2);

    // Can find by name
    assert!(cache.find_name_in_dir(DOT_DT, "a.c").is_some());
    assert!(cache.find_name_in_dir(DOT_DT, "b.c").is_some());
}

#[test]
fn test_cache_len_and_clear() {
    let mut cache = EntryCache::new();
    assert!(cache.is_empty());

    cache.add(make_entry(1, 0, ".", NodeType::Dir));
    cache.add(make_entry(2, 1, "file", NodeType::File));
    assert_eq!(cache.len(), 2);

    cache.clear();
    assert!(cache.is_empty());
}

#[test]
fn test_duplicate_add_keeps_first() {
    let mut cache = EntryCache::new();
    let e1 = make_entry(1, 0, ".", NodeType::Dir);
    let e2 = make_entry(1, 0, ".", NodeType::File); // Same ID, different type

    cache.add(e1);
    cache.add(e2);

    // Should keep the first entry (Dir, not File)
    assert_eq!(cache.get(TupId::new(1)).node_type, NodeType::Dir);
}

#[test]
fn entries_with_nothing_above_both() {
    let mut cache = EntryCache::new();
    cache.add(make_entry(1, 0, ".", NodeType::Dir));
    cache.add(make_entry(2, 1, "src", NodeType::Dir));
    cache.add(make_entry(8, 0, "other", NodeType::Dir));
    cache.add(make_entry(9, 8, "lib", NodeType::Dir));
    assert_eq!(cache.relative_path(TupId::new(2), TupId::new(9)), None);
    assert_eq!(cache.relative_path(TupId::new(9), TupId::new(1)), None);
    assert_eq!(cache.relative_path(TupId::new(9), TupId::new(8)), Some("..".to_string()));
}
