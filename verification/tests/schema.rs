//! Tables of the database.
#![allow(unused_mut)]
use tup::db::tables::{TupDb, TupFlags, DB_VERSION, PARSER_VERSION};
use tup::types::{LinkType, NodeType, TupId};

const DOT_DT: TupId = TupId(1);

fn test_db() -> TupDb {
    TupDb::create_in_memory()
}

#[test]
fn test_create_in_memory() {
    let mut db = test_db();
    let ver = db.config_get_int("db_version", -1).unwrap();
    assert_eq!(ver, DB_VERSION);
    let pver = db.config_get_int("parser_version", -1).unwrap();
    assert_eq!(pver, PARSER_VERSION);
}

#[test]
fn test_root_node_exists() {
    let mut db = test_db();
    let root = db.node_select_by_id(DOT_DT);
    assert!(root.is_some());
    let root = root.unwrap();
    assert_eq!(root.id, DOT_DT);
    assert_eq!(root.name, ".");
    assert_eq!(root.node_type, NodeType::Dir);
    assert_eq!(root.dir, TupId::new(0));
    assert_eq!(root.mtime, -1);
    assert_eq!(root.srcid, -1);
}

#[test]
fn test_virtual_dirs_created() {
    let mut db = test_db();
    let env = db.env_dt().unwrap();
    let slash = db.slash_dt().unwrap();
    let excl = db.exclusion_dt().unwrap();

    // All should be different
    assert_ne!(env, slash);
    assert_ne!(env, excl);
    assert_ne!(slash, excl);

    // All should be children of DOT_DT
    let env_node = db.node_select(DOT_DT, "$").unwrap();
    assert_eq!(env_node.id, env);
    assert_eq!(env_node.node_type, NodeType::Dir);

    let slash_node = db.node_select(DOT_DT, "/").unwrap();
    assert_eq!(slash_node.id, slash);

    let excl_node = db.node_select(DOT_DT, "^").unwrap();
    assert_eq!(excl_node.id, excl);
}

#[test]
fn test_config_set_get() {
    let mut db = test_db();
    db.begin().unwrap();
    db.config_set_int("test_key", 42);
    let val = db.config_get_int("test_key", -1).unwrap();
    assert_eq!(val, 42);
    db.commit().unwrap();
}

#[test]
fn test_config_get_default() {
    let mut db = test_db();
    let val = db.config_get_int("nonexistent", 99).unwrap();
    assert_eq!(val, 99);
}

#[test]
fn test_node_insert_and_select() {
    let mut db = test_db();
    db.begin().unwrap();

    let id = db
        .node_insert(DOT_DT, "hello.c", NodeType::File, 1000, 0, -1, None, None)
        .unwrap();

    let node = db.node_select(DOT_DT, "hello.c").unwrap();
    assert_eq!(node.id, id);
    assert_eq!(node.name, "hello.c");
    assert_eq!(node.node_type, NodeType::File);
    assert_eq!(node.mtime, 1000);
    assert_eq!(node.srcid, -1);
    assert!(node.display.is_none());
    assert!(node.flags.is_none());

    db.commit().unwrap();
}

#[test]
fn test_node_insert_with_display() {
    let mut db = test_db();
    db.begin().unwrap();

    let id = db
        .node_insert(
            DOT_DT,
            "gcc -c foo.c",
            NodeType::Cmd,
            -1,
            0,
            -1,
            Some("CC foo.c"),
            Some("t"),
        )
        .unwrap();

    let node = db.node_select_by_id(id).unwrap();
    assert_eq!(node.display, Some("CC foo.c".to_string()));
    assert_eq!(node.flags, Some("t".to_string()));

    db.commit().unwrap();
}

#[test]
fn test_node_unique_constraint() {
    let mut db = test_db();
    db.begin().unwrap();

    db.node_insert(DOT_DT, "file.c", NodeType::File, 0, 0, -1, None, None)
        .unwrap();
    let result = db.node_insert(DOT_DT, "file.c", NodeType::File, 0, 0, -1, None, None);
    assert!(result.is_err());

    db.rollback().unwrap();
}

#[test]
fn test_node_select_not_found() {
    let mut db = test_db();
    let result = db.node_select(DOT_DT, "nonexistent");
    assert!(result.is_none());
}

#[test]
fn test_node_delete() {
    let mut db = test_db();
    db.begin().unwrap();

    let id = db
        .node_insert(DOT_DT, "temp.c", NodeType::File, 0, 0, -1, None, None)
        .unwrap();
    assert!(db.node_select_by_id(id).is_some());

    let deleted = db.node_delete(id);
    assert!(deleted);
    assert!(db.node_select_by_id(id).is_none());

    db.commit().unwrap();
}

#[test]
fn test_node_set_type() {
    let mut db = test_db();
    db.begin().unwrap();

    let id = db
        .node_insert(DOT_DT, "ghost.c", NodeType::GhostNode, -1, 0, -1, None, None)
        .unwrap();
    db.node_set_type(id, NodeType::File);

    let node = db.node_select_by_id(id).unwrap();
    assert_eq!(node.node_type, NodeType::File);

    db.commit().unwrap();
}

#[test]
fn test_node_set_mtime() {
    let mut db = test_db();
    db.begin().unwrap();

    let id = db
        .node_insert(DOT_DT, "file.c", NodeType::File, 0, 0, -1, None, None)
        .unwrap();
    db.node_set_mtime(id, 12345, 67890);

    let node = db.node_select_by_id(id).unwrap();
    assert_eq!(node.mtime, 12345);
    assert_eq!(node.mtime_ns, 67890);

    db.commit().unwrap();
}

#[test]
fn test_node_select_dir() {
    let mut db = test_db();
    db.begin().unwrap();

    db.node_insert(DOT_DT, "a.c", NodeType::File, 0, 0, -1, None, None)
        .unwrap();
    db.node_insert(DOT_DT, "b.c", NodeType::File, 0, 0, -1, None, None)
        .unwrap();
    db.node_insert(DOT_DT, "c.c", NodeType::File, 0, 0, -1, None, None)
        .unwrap();

    let children = db.node_select_dir(DOT_DT);
    // DOT_DT has 3 files + 3 virtual dirs ($, /, ^)
    let file_children: Vec<_> = children
        .iter()
        .filter(|n| n.node_type == NodeType::File)
        .collect();
    assert_eq!(file_children.len(), 3);

    db.commit().unwrap();
}

#[test]
fn test_link_insert_and_exists() {
    let mut db = test_db();
    db.begin().unwrap();

    let file_id = db
        .node_insert(DOT_DT, "input.c", NodeType::File, 0, 0, -1, None, None)
        .unwrap();
    let cmd_id = db
        .node_insert(DOT_DT, "gcc input.c", NodeType::Cmd, -1, 0, -1, None, None)
        .unwrap();

    db.link_insert(file_id, cmd_id, LinkType::Normal);
    assert!(db.link_exists(file_id, cmd_id, LinkType::Normal));
    assert!(!db.link_exists(file_id, cmd_id, LinkType::Sticky));

    db.link_insert(file_id, cmd_id, LinkType::Sticky);
    assert!(db.link_exists(file_id, cmd_id, LinkType::Sticky));

    db.commit().unwrap();
}

#[test]
fn test_link_idempotent() {
    let mut db = test_db();
    db.begin().unwrap();

    let a = db
        .node_insert(DOT_DT, "a", NodeType::File, 0, 0, -1, None, None)
        .unwrap();
    let b = db
        .node_insert(DOT_DT, "b", NodeType::Cmd, -1, 0, -1, None, None)
        .unwrap();

    db.link_insert(a, b, LinkType::Normal);
    db.link_insert(a, b, LinkType::Normal); // Should not error

    db.commit().unwrap();
}

#[test]
fn test_links_delete() {
    let mut db = test_db();
    db.begin().unwrap();

    let a = db
        .node_insert(DOT_DT, "a", NodeType::File, 0, 0, -1, None, None)
        .unwrap();
    let b = db
        .node_insert(DOT_DT, "b", NodeType::Cmd, -1, 0, -1, None, None)
        .unwrap();
    db.link_insert(a, b, LinkType::Normal);
    db.link_insert(a, b, LinkType::Sticky);

    db.links_delete(a);
    assert!(!db.link_exists(a, b, LinkType::Normal));
    assert!(!db.link_exists(a, b, LinkType::Sticky));

    db.commit().unwrap();
}

#[test]
fn test_flag_operations() {
    let mut db = test_db();
    db.begin().unwrap();

    let id = db
        .node_insert(DOT_DT, "dir", NodeType::Dir, 0, 0, -1, None, None)
        .unwrap();

    assert!(!db.flag_check(id, TupFlags::Create));
    db.flag_add(id, TupFlags::Create);
    assert!(db.flag_check(id, TupFlags::Create));

    db.flag_remove(id, TupFlags::Create);
    assert!(!db.flag_check(id, TupFlags::Create));

    db.commit().unwrap();
}

#[test]
fn test_flag_idempotent() {
    let mut db = test_db();
    db.begin().unwrap();

    let id = db
        .node_insert(DOT_DT, "dir", NodeType::Dir, 0, 0, -1, None, None)
        .unwrap();
    db.flag_add(id, TupFlags::Modify);
    db.flag_add(id, TupFlags::Modify); // Should not error
    assert!(db.flag_check(id, TupFlags::Modify));

    db.commit().unwrap();
}

#[test]
fn test_flag_list() {
    let mut db = test_db();
    db.begin().unwrap();

    let a = db
        .node_insert(DOT_DT, "a", NodeType::Dir, 0, 0, -1, None, None)
        .unwrap();
    let b = db
        .node_insert(DOT_DT, "b", NodeType::Dir, 0, 0, -1, None, None)
        .unwrap();

    db.flag_add(a, TupFlags::Create);
    db.flag_add(b, TupFlags::Create);

    let list = db.flag_list(TupFlags::Create);
    assert_eq!(list.len(), 2);
    assert!(list.contains(&a));
    assert!(list.contains(&b));

    db.commit().unwrap();
}

#[test]
fn test_var_set_get() {
    let mut db = test_db();
    db.begin().unwrap();

    let id = db
        .node_insert(DOT_DT, "MY_VAR", NodeType::Var, 0, 0, -1, None, None)
        .unwrap();
    db.var_set(id, "hello world");

    let val = db.var_get(id);
    assert_eq!(val, Some("hello world".to_string()));

    db.commit().unwrap();
}

#[test]
fn test_var_delete() {
    let mut db = test_db();
    db.begin().unwrap();

    let id = db
        .node_insert(DOT_DT, "MY_VAR", NodeType::Var, 0, 0, -1, None, None)
        .unwrap();
    db.var_set(id, "value");
    assert!(db.var_get(id).is_some());

    db.var_delete(id);
    assert!(db.var_get(id).is_none());

    db.commit().unwrap();
}

#[test]
fn test_transaction_commit() {
    let mut db = test_db();
    db.begin().unwrap();
    db.node_insert(DOT_DT, "file.c", NodeType::File, 0, 0, -1, None, None)
        .unwrap();
    db.commit().unwrap();

    // Should persist
    let node = db.node_select(DOT_DT, "file.c");
    assert!(node.is_some());
}

#[test]
fn test_transaction_rollback() {
    let mut db = test_db();
    db.begin().unwrap();
    db.node_insert(DOT_DT, "file.c", NodeType::File, 0, 0, -1, None, None)
        .unwrap();
    db.rollback().unwrap();

    // Should not persist
    let node = db.node_select(DOT_DT, "file.c");
    assert!(node.is_none());
}
