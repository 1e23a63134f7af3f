//! From paths to nodes.
#![allow(unused_mut)]
use tup::db::entry::EntryCache;
use tup::db::path_resolve::{add_dir_input, resolve_full_path, resolve_path};
use tup::db::tables::TupDb;
use tup::types::{LinkType, NodeType, TupId};

const DOT_DT: TupId = TupId(1);

fn setup() -> (TupDb, EntryCache) {
    let mut db = TupDb::create_in_memory();
    let mut cache = EntryCache::new();
    cache.load(&db, DOT_DT).unwrap();
    (db, cache)
}

#[test]
fn test_resolve_simple_file() {
    let (mut db, mut cache) = setup();
    db.begin().unwrap();
    db.node_insert(DOT_DT, "main.c", NodeType::File, 0, 0, -1, None, None)
        .unwrap();

    let (dir, name) = resolve_path(&db, &mut cache, DOT_DT, "main.c").unwrap();
    assert_eq!(dir, DOT_DT);
    assert_eq!(name, Some("main.c".to_string()));
    db.commit().unwrap();
}

#[test]
fn test_resolve_subdirectory_file() {
    let (mut db, mut cache) = setup();
    db.begin().unwrap();
    let sub = db
        .node_insert(DOT_DT, "src", NodeType::Dir, 0, 0, -1, None, None)
        .unwrap();
    db.node_insert(sub, "main.c", NodeType::File, 0, 0, -1, None, None)
        .unwrap();

    let (dir, name) = resolve_path(&db, &mut cache, DOT_DT, "src/main.c").unwrap();
    assert_eq!(dir, sub);
    assert_eq!(name, Some("main.c".to_string()));
    db.commit().unwrap();
}

#[test]
fn test_resolve_parent_dir() {
    let (mut db, mut cache) = setup();
    db.begin().unwrap();
    let sub = db
        .node_insert(DOT_DT, "src", NodeType::Dir, 0, 0, -1, None, None)
        .unwrap();
    cache.load(&db, sub).unwrap();

    // From src, go up with ..
    let (dir, name) = resolve_path(&db, &mut cache, sub, "../Tupfile").unwrap();
    assert_eq!(dir, DOT_DT);
    assert_eq!(name, Some("Tupfile".to_string()));
    db.commit().unwrap();
}

#[test]
fn test_resolve_dot() {
    let (mut db, mut cache) = setup();
    let (dir, name) = resolve_path(&db, &mut cache, DOT_DT, ".").unwrap();
    assert_eq!(dir, DOT_DT);
    assert!(name.is_none());
}

#[test]
fn test_resolve_full_path_found() {
    let (mut db, mut cache) = setup();
    db.begin().unwrap();
    let file_id = db
        .node_insert(DOT_DT, "test.c", NodeType::File, 0, 0, -1, None, None)
        .unwrap();

    let result = resolve_full_path(&db, &mut cache, DOT_DT, "test.c").unwrap();
    assert_eq!(result, Some(file_id));
    db.commit().unwrap();
}

#[test]
fn test_resolve_full_path_not_found() {
    let (mut db, mut cache) = setup();
    let result = resolve_full_path(&db, &mut cache, DOT_DT, "nonexistent.c").unwrap();
    assert_eq!(result, None);
}

#[test]
fn test_add_dir_input() {
    let (mut db, _cache) = setup();
    db.begin().unwrap();
    let file = db
        .node_insert(DOT_DT, "rules.tup", NodeType::File, 0, 0, -1, None, None)
        .unwrap();
    let dir = db
        .node_insert(DOT_DT, "subdir", NodeType::Dir, 0, 0, -1, None, None)
        .unwrap();

    add_dir_input(&mut db, file, dir);
    assert!(db
        .link_exists(file, dir, LinkType::Normal));
    db.commit().unwrap();
}

#[test]
fn paths_to_directories_have_no_name() {
    let (mut db, mut cache) = setup();
    let src = db.node_insert(DOT_DT, "src", NodeType::Dir, 0, 0, -1, None, None).unwrap();
    for path in ["src/", "src/.", "./src/"] {
        assert_eq!(resolve_path(&db, &mut cache, DOT_DT, path).unwrap(), (src, None));
    }
    assert_eq!(resolve_path(&db, &mut cache, DOT_DT, "src/..").unwrap(), (DOT_DT, None));
    assert_eq!(resolve_path(&db, &mut cache, src, "..").unwrap(), (DOT_DT, None));
    assert_eq!(resolve_path(&db, &mut cache, DOT_DT, "..").unwrap(), (TupId::new(0), None));
    assert_eq!(resolve_full_path(&db, &mut cache, DOT_DT, "src/").unwrap(), Some(src));
    assert!(resolve_path(&db, &mut cache, DOT_DT, "none/..").is_err());
}
