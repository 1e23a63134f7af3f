//! Nodes are created, change and go.
#![allow(unused_mut)]
use tup::db::entry::{EntryCache, TupEntry};
use tup::db::nodes::CreateResult;
use tup::db::tables::{TupDb, TupFlags};
use tup::types::{LinkType, NodeType, TupId};

const DOT_DT: TupId = TupId(1);

fn setup() -> (TupDb, EntryCache) {
    let mut db = TupDb::create_in_memory();
    let mut cache = EntryCache::new();
    // Load root node into cache
    cache.load(&db, DOT_DT).unwrap();
    (db, cache)
}

#[test]
fn test_create_name_file() {
    let (mut db, mut cache) = setup();
    db.begin().unwrap();

    let result = db.create_name_file(&mut cache, DOT_DT, "hello.c", 1000, 500).unwrap();
    let id = result.id();

    // Verify in database
    let node = db.node_select(DOT_DT, "hello.c").unwrap();
    assert_eq!(node.id, id);
    assert_eq!(node.node_type, NodeType::File);
    assert_eq!(node.mtime, 1000);
    assert_eq!(node.mtime_ns, 500);

    // Verify in cache
    assert!(cache.find(id).is_some());
    assert_eq!(cache.find(id).unwrap().name, "hello.c");

    // Verify parent was added to create_list
    assert!(db.flag_check(DOT_DT, TupFlags::Create));

    db.commit().unwrap();
}

#[test]
fn test_create_name_file_ghost_upgrade() {
    let (mut db, mut cache) = setup();
    db.begin().unwrap();

    // Create a ghost first
    let ghost_id = db.node_insert(DOT_DT, "phantom.c", NodeType::GhostNode, -1, 0, -1, None, None).unwrap();
    let row = db.node_select_by_id(ghost_id).unwrap();
    cache.add(TupEntry::from_node_row(&row));

    // Now create_name_file should upgrade the ghost
    let result = db.create_name_file(&mut cache, DOT_DT, "phantom.c", 2000, 0).unwrap();
    assert!(matches!(result, CreateResult::Existing(_)));
    assert_eq!(result.id(), ghost_id);

    // Verify it's now a file
    let node = db.node_select_by_id(ghost_id).unwrap();
    assert_eq!(node.node_type, NodeType::File);

    // Verify in cache
    assert_eq!(cache.find(ghost_id).unwrap().node_type, NodeType::File);

    db.commit().unwrap();
}

#[test]
fn test_create_command_file() {
    let (mut db, mut cache) = setup();
    db.begin().unwrap();

    let id = db.create_command_file(
        &mut cache, DOT_DT, "gcc -c foo.c -o foo.o",
        Some("CC foo.c"), Some("j"),
    ).unwrap();

    let node = db.node_select_by_id(id).unwrap();
    assert_eq!(node.node_type, NodeType::Cmd);
    assert_eq!(node.display, Some("CC foo.c".to_string()));
    assert_eq!(node.flags, Some("j".to_string()));

    // Commands should be in modify_list
    assert!(db.flag_check(id, TupFlags::Modify));

    db.commit().unwrap();
}

#[test]
fn test_create_node_same_type_returns_existing() {
    let (mut db, mut cache) = setup();
    db.begin().unwrap();

    let r1 = db.create_node(&mut cache, DOT_DT, "file.c", NodeType::File, -1, 100, 0).unwrap();
    let r2 = db.create_node(&mut cache, DOT_DT, "file.c", NodeType::File, -1, 200, 0).unwrap();

    assert_eq!(r1.id(), r2.id());
    assert!(matches!(r1, CreateResult::Created(_)));
    assert!(matches!(r2, CreateResult::Existing(_)));

    db.commit().unwrap();
}

#[test]
fn test_create_node_different_type_errors() {
    let (mut db, mut cache) = setup();
    db.begin().unwrap();

    db.create_node(&mut cache, DOT_DT, "thing", NodeType::File, -1, 0, 0).unwrap();
    let result = db.create_node(&mut cache, DOT_DT, "thing", NodeType::Dir, -1, 0, 0);
    assert!(result.is_err());

    db.rollback().unwrap();
}

#[test]
fn test_create_node_dir_gets_create_flag() {
    let (mut db, mut cache) = setup();
    db.begin().unwrap();

    let result = db.create_node(&mut cache, DOT_DT, "subdir", NodeType::Dir, -1, 0, 0).unwrap();
    assert!(db.flag_check(result.id(), TupFlags::Create));

    db.commit().unwrap();
}

#[test]
fn test_delete_name_file() {
    let (mut db, mut cache) = setup();
    db.begin().unwrap();

    // Create a file with links and flags
    let file_id = db.create_name_file(&mut cache, DOT_DT, "test.c", 0, 0).unwrap().id();
    let cmd_id = db.create_command_file(&mut cache, DOT_DT, "gcc test.c", None, None).unwrap();
    db.link_insert(file_id, cmd_id, LinkType::Normal);
    db.flag_add(file_id, TupFlags::Modify);

    // Delete the file
    db.delete_name_file(&mut cache, file_id);

    // Verify it's gone from DB
    assert!(db.node_select_by_id(file_id).is_none());

    // Verify links are gone
    assert!(!db.link_exists(file_id, cmd_id, LinkType::Normal));

    // Verify flags are gone
    assert!(!db.flag_check(file_id, TupFlags::Modify));

    // Verify gone from cache
    assert!(cache.find(file_id).is_none());

    db.commit().unwrap();
}

#[test]
fn test_file_mod_new_file() {
    let (mut db, mut cache) = setup();
    db.begin().unwrap();

    let (id, modified) = db.file_mod(&mut cache, DOT_DT, "new.c", 5000, 0).unwrap();
    assert!(modified);

    let node = db.node_select_by_id(id).unwrap();
    assert_eq!(node.name, "new.c");
    assert_eq!(node.mtime, 5000);

    db.commit().unwrap();
}

#[test]
fn test_file_mod_existing_changed() {
    let (mut db, mut cache) = setup();
    db.begin().unwrap();

    let (id, _) = db.file_mod(&mut cache, DOT_DT, "file.c", 1000, 0).unwrap();

    // Modify with new mtime
    let (id2, modified) = db.file_mod(&mut cache, DOT_DT, "file.c", 2000, 0).unwrap();
    assert_eq!(id, id2);
    assert!(modified);
    assert!(db.flag_check(id, TupFlags::Modify));

    db.commit().unwrap();
}

#[test]
fn test_file_mod_existing_unchanged() {
    let (mut db, mut cache) = setup();
    db.begin().unwrap();

    let (id, _) = db.file_mod(&mut cache, DOT_DT, "file.c", 1000, 0).unwrap();

    // Same mtime — no modification
    let (id2, modified) = db.file_mod(&mut cache, DOT_DT, "file.c", 1000, 0).unwrap();
    assert_eq!(id, id2);
    assert!(!modified);

    db.commit().unwrap();
}

#[test]
fn test_file_mod_ghost_upgrade() {
    let (mut db, mut cache) = setup();
    db.begin().unwrap();

    // Create a ghost
    let ghost_id = db.node_insert(DOT_DT, "ghost.c", NodeType::GhostNode, -1, 0, -1, None, None).unwrap();
    let row = db.node_select_by_id(ghost_id).unwrap();
    cache.add(TupEntry::from_node_row(&row));

    // file_mod should upgrade the ghost
    let (id, modified) = db.file_mod(&mut cache, DOT_DT, "ghost.c", 3000, 0).unwrap();
    assert_eq!(id, ghost_id);
    assert!(modified);

    let node = db.node_select_by_id(id).unwrap();
    assert_eq!(node.node_type, NodeType::File);

    db.commit().unwrap();
}

#[test]
fn test_file_del_existing() {
    let (mut db, mut cache) = setup();
    db.begin().unwrap();

    db.create_name_file(&mut cache, DOT_DT, "delete_me.c", 0, 0).unwrap();
    let deleted = db.file_del(&mut cache, DOT_DT, "delete_me.c");
    assert!(deleted);

    assert!(db.node_select(DOT_DT, "delete_me.c").is_none());

    db.commit().unwrap();
}

#[test]
fn test_file_del_nonexistent() {
    let (mut db, mut cache) = setup();
    db.begin().unwrap();

    let deleted = db.file_del(&mut cache, DOT_DT, "nonexistent.c");
    assert!(!deleted);

    db.commit().unwrap();
}

#[test]
fn test_file_del_ghost_not_deleted() {
    let (mut db, mut cache) = setup();
    db.begin().unwrap();

    let ghost_id = db.node_insert(DOT_DT, "ghost.c", NodeType::GhostNode, -1, 0, -1, None, None).unwrap();
    let row = db.node_select_by_id(ghost_id).unwrap();
    cache.add(TupEntry::from_node_row(&row));

    let deleted = db.file_del(&mut cache, DOT_DT, "ghost.c");
    assert!(!deleted); // Ghosts should not be deleted

    // Ghost should still exist
    assert!(db.node_select_by_id(ghost_id).is_some());

    db.commit().unwrap();
}

#[test]
fn test_make_dirs_normal() {
    let (mut db, mut cache) = setup();
    db.begin().unwrap();

    // Create a GeneratedDir
    let gendir_id = db.node_insert(DOT_DT, "gendir", NodeType::GeneratedDir, -1, 0, -1, None, None).unwrap();
    let row = db.node_select_by_id(gendir_id).unwrap();
    cache.add(TupEntry::from_node_row(&row));

    // Create a file inside it — should convert parent to Dir
    db.create_name_file(&mut cache, gendir_id, "output.o", 0, 0).unwrap();

    let node = db.node_select_by_id(gendir_id).unwrap();
    assert_eq!(node.node_type, NodeType::Dir);
    assert_eq!(cache.find(gendir_id).unwrap().node_type, NodeType::Dir);

    db.commit().unwrap();
}

#[test]
fn a_changed_file_reaches_what_uses_it() {
    let (mut db, mut cache) = setup();
    let (id, _) = db.file_mod(&mut cache, DOT_DT, "file.c", 1000, 0).unwrap();
    let cmd = db.node_insert(DOT_DT, "cc", NodeType::Cmd, -1, 0, -1, None, None).unwrap();
    let sub = db.node_insert(DOT_DT, "sub", NodeType::Dir, -1, 0, -1, None, None).unwrap();
    db.link_insert(id, cmd, LinkType::Sticky);
    db.link_insert(id, sub, LinkType::Normal);
    db.flags_clear_all();
    assert!(db.file_mod(&mut cache, DOT_DT, "file.c", 1001, 0).unwrap().1);
    assert!(db.flag_check(cmd, TupFlags::Modify));
    assert!(db.flag_check(sub, TupFlags::Create));
}
