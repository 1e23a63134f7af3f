//! Nodes that stand for something that is not there.
#![allow(unused_mut)]
use tup::db::tables::TupDb;
use tup::types::{LinkType, NodeType, TupId};

const DOT_DT: TupId = TupId(1);

#[test]
fn test_ghost_reclaimable_no_refs() {
    let mut db = TupDb::create_in_memory();
    db.begin().unwrap();

    let ghost_id = db
        .node_insert(DOT_DT, "phantom", NodeType::GhostNode, -1, 0, -1, None, None)
        .unwrap();

    assert!(db.is_ghost_reclaimable(ghost_id, NodeType::GhostNode));
    db.commit().unwrap();
}

#[test]
fn test_ghost_not_reclaimable_has_children() {
    let mut db = TupDb::create_in_memory();
    db.begin().unwrap();

    let ghost_dir = db
        .node_insert(DOT_DT, "ghost_dir", NodeType::GhostNode, -1, 0, -1, None, None)
        .unwrap();
    // Child node has ghost_dir as parent
    db.node_insert(ghost_dir, "child.txt", NodeType::File, 0, 0, -1, None, None)
        .unwrap();

    assert!(!db.is_ghost_reclaimable(ghost_dir, NodeType::GhostNode));
    db.commit().unwrap();
}

#[test]
fn test_ghost_not_reclaimable_has_links() {
    let mut db = TupDb::create_in_memory();
    db.begin().unwrap();

    let ghost = db
        .node_insert(DOT_DT, "ghost_file", NodeType::GhostNode, -1, 0, -1, None, None)
        .unwrap();
    let cmd = db
        .node_insert(DOT_DT, "some_cmd", NodeType::Cmd, -1, 0, -1, None, None)
        .unwrap();
    db.link_insert(ghost, cmd, LinkType::Normal);

    assert!(!db.is_ghost_reclaimable(ghost, NodeType::GhostNode));
    db.commit().unwrap();
}

#[test]
fn test_reclaim_ghosts() {
    let mut db = TupDb::create_in_memory();
    db.begin().unwrap();

    let g1 = db
        .node_insert(DOT_DT, "ghost1", NodeType::GhostNode, -1, 0, -1, None, None)
        .unwrap();
    let g2 = db
        .node_insert(DOT_DT, "ghost2", NodeType::GhostNode, -1, 0, -1, None, None)
        .unwrap();

    let mut candidates = vec![g1, g2];
    let reclaimed = db.reclaim_ghosts(&mut candidates);
    assert_eq!(reclaimed, 2);

    // Both should be gone
    assert!(db.node_select_by_id(g1).is_none());
    assert!(db.node_select_by_id(g2).is_none());
    db.commit().unwrap();
}

#[test]
fn test_reclaim_cascading() {
    let mut db = TupDb::create_in_memory();
    db.begin().unwrap();

    // Ghost parent dir with ghost child
    let parent = db
        .node_insert(
            DOT_DT,
            "ghost_parent",
            NodeType::GhostNode,
            -1,
            0,
            -1,
            None,
            None,
        )
        .unwrap();
    let child = db
        .node_insert(
            parent,
            "ghost_child",
            NodeType::GhostNode,
            -1,
            0,
            -1,
            None,
            None,
        )
        .unwrap();

    // Start with child — parent should cascade
    let mut candidates = vec![child];
    let reclaimed = db.reclaim_ghosts(&mut candidates);
    assert_eq!(reclaimed, 2); // Both child and parent reclaimed

    assert!(db.node_select_by_id(child).is_none());
    assert!(db.node_select_by_id(parent).is_none());
    db.commit().unwrap();
}

#[test]
fn test_tup_config_never_reclaimed() {
    let mut db = TupDb::create_in_memory();
    db.begin().unwrap();

    let config = db
        .node_insert(DOT_DT, "tup.config", NodeType::GhostNode, -1, 0, -1, None, None)
        .unwrap();

    let mut candidates = vec![config];
    let reclaimed = db.reclaim_ghosts(&mut candidates);
    assert_eq!(reclaimed, 0); // tup.config never reclaimed

    assert!(db.node_select_by_id(config).is_some());
    db.commit().unwrap();
}

#[test]
fn test_delete_or_ghost_no_refs() {
    let mut db = TupDb::create_in_memory();
    db.begin().unwrap();

    let id = db
        .node_insert(DOT_DT, "temp", NodeType::File, 0, 0, -1, None, None)
        .unwrap();

    let deleted = db.delete_or_ghost(id);
    assert!(deleted); // Fully deleted
    assert!(db.node_select_by_id(id).is_none());
    db.commit().unwrap();
}

#[test]
fn test_delete_or_ghost_has_refs() {
    let mut db = TupDb::create_in_memory();
    db.begin().unwrap();

    let dir = db
        .node_insert(DOT_DT, "mydir", NodeType::Dir, 0, 0, -1, None, None)
        .unwrap();
    db.node_insert(dir, "child", NodeType::File, 0, 0, -1, None, None)
        .unwrap();

    let deleted = db.delete_or_ghost(dir);
    assert!(!deleted); // Converted to ghost
    let node = db.node_select_by_id(dir).unwrap();
    assert_eq!(node.node_type, NodeType::GhostNode);
    db.commit().unwrap();
}
