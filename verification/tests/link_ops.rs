//! Links between nodes.
#![allow(unused_mut)]
use tup::db::tables::{TupDb, TupFlags};
use tup::types::{LinkType, NodeType, TupId};

const DOT_DT: TupId = TupId(1);

fn setup() -> TupDb {
    TupDb::create_in_memory()
}

fn insert_file(db: &mut TupDb, dir: TupId, name: &str) -> TupId {
    db.node_insert(dir, name, NodeType::File, 0, 0, -1, None, None)
        .unwrap()
}

fn insert_cmd(db: &mut TupDb, dir: TupId, name: &str) -> TupId {
    db.node_insert(dir, name, NodeType::Cmd, -1, 0, -1, None, None)
        .unwrap()
}

#[test]
fn test_get_normal_outputs() {
    let mut db = setup();
    db.begin().unwrap();

    let file = insert_file(&mut db, DOT_DT, "input.c");
    let cmd = insert_cmd(&mut db, DOT_DT, "gcc input.c");
    db.link_insert(file, cmd, LinkType::Normal);

    let outputs = db.get_normal_outputs(file);
    assert_eq!(outputs.len(), 1);
    assert_eq!(outputs[0], cmd);

    db.commit().unwrap();
}

#[test]
fn test_get_normal_inputs() {
    let mut db = setup();
    db.begin().unwrap();

    let file1 = insert_file(&mut db, DOT_DT, "a.c");
    let file2 = insert_file(&mut db, DOT_DT, "b.c");
    let cmd = insert_cmd(&mut db, DOT_DT, "gcc a.c b.c");
    db.link_insert(file1, cmd, LinkType::Normal);
    db.link_insert(file2, cmd, LinkType::Normal);

    let inputs = db.get_normal_inputs(cmd);
    assert_eq!(inputs.len(), 2);
    assert!(inputs.contains(&file1));
    assert!(inputs.contains(&file2));

    db.commit().unwrap();
}

#[test]
fn test_get_sticky_inputs() {
    let mut db = setup();
    db.begin().unwrap();

    let header = insert_file(&mut db, DOT_DT, "config.h");
    let cmd = insert_cmd(&mut db, DOT_DT, "gcc main.c");
    db.link_insert(header, cmd, LinkType::Sticky);

    let sticky = db.get_sticky_inputs(cmd);
    assert_eq!(sticky.len(), 1);
    assert_eq!(sticky[0], header);

    // Normal inputs should be empty
    let normal = db.get_normal_inputs(cmd);
    assert!(normal.is_empty());

    db.commit().unwrap();
}

#[test]
fn test_link_remove() {
    let mut db = setup();
    db.begin().unwrap();

    let a = insert_file(&mut db, DOT_DT, "a");
    let b = insert_cmd(&mut db, DOT_DT, "cmd");
    db.link_insert(a, b, LinkType::Normal);
    assert!(db.link_exists(a, b, LinkType::Normal));

    let removed = db.link_remove(a, b, LinkType::Normal);
    assert!(removed);
    assert!(!db.link_exists(a, b, LinkType::Normal));

    // Removing non-existent link returns false
    let removed = db.link_remove(a, b, LinkType::Normal);
    assert!(!removed);

    db.commit().unwrap();
}

#[test]
fn test_get_incoming_link() {
    let mut db = setup();
    db.begin().unwrap();

    let cmd = insert_cmd(&mut db, DOT_DT, "gcc");
    let output = insert_file(&mut db, DOT_DT, "output.o");
    db.link_insert(cmd, output, LinkType::Normal);

    let incoming = db.get_incoming_link(output);
    assert_eq!(incoming, Some(cmd));

    // No incoming for cmd
    let incoming = db.get_incoming_link(cmd);
    assert!(incoming.is_none());

    db.commit().unwrap();
}

#[test]
fn test_link_insert_group() {
    let mut db = setup();
    db.begin().unwrap();

    let output = insert_file(&mut db, DOT_DT, "out.o");
    let group = db
        .node_insert(DOT_DT, "<objects>", NodeType::Group, -1, 0, -1, None, None)
        .unwrap();
    let cmd = insert_cmd(&mut db, DOT_DT, "gcc");

    db.link_insert_group(output, group, cmd);

    let links = db.get_group_links(output);
    assert_eq!(links.len(), 1);
    assert_eq!(links[0], (group, cmd));

    db.commit().unwrap();
}

#[test]
fn test_get_cmd_outputs() {
    let mut db = setup();
    db.begin().unwrap();

    let cmd = insert_cmd(&mut db, DOT_DT, "gcc -c main.c");
    let out1 = db
        .node_insert(DOT_DT, "main.o", NodeType::Generated, 0, 0, -1, None, None)
        .unwrap();
    let out2 = db
        .node_insert(DOT_DT, "main.d", NodeType::Generated, 0, 0, -1, None, None)
        .unwrap();
    db.link_insert(cmd, out1, LinkType::Normal);
    db.link_insert(cmd, out2, LinkType::Normal);

    let outputs = db.get_cmd_outputs(cmd);
    assert_eq!(outputs.len(), 2);
    let names: Vec<&str> = outputs.iter().map(|n| n.name.as_str()).collect();
    assert!(names.contains(&"main.o"));
    assert!(names.contains(&"main.d"));

    db.commit().unwrap();
}

#[test]
fn test_get_cmd_inputs() {
    let mut db = setup();
    db.begin().unwrap();

    let src = insert_file(&mut db, DOT_DT, "main.c");
    let hdr = insert_file(&mut db, DOT_DT, "config.h");
    let cmd = insert_cmd(&mut db, DOT_DT, "gcc -c main.c");
    db.link_insert(src, cmd, LinkType::Normal);
    db.link_insert(hdr, cmd, LinkType::Sticky);

    let (normal, sticky) = db.get_cmd_inputs(cmd);
    assert_eq!(normal.len(), 1);
    assert_eq!(normal[0].name, "main.c");
    assert_eq!(sticky.len(), 1);
    assert_eq!(sticky[0].name, "config.h");

    db.commit().unwrap();
}

#[test]
fn test_get_output_group() {
    let mut db = setup();
    db.begin().unwrap();

    let cmd = insert_cmd(&mut db, DOT_DT, "gcc");
    let group = db
        .node_insert(DOT_DT, "<objs>", NodeType::Group, -1, 0, -1, None, None)
        .unwrap();
    db.link_insert(cmd, group, LinkType::Normal);

    let result = db.get_output_group(cmd);
    assert_eq!(result, Some(group));

    // Command without a group
    let cmd2 = insert_cmd(&mut db, DOT_DT, "other");
    assert!(db.get_output_group(cmd2).is_none());

    db.commit().unwrap();
}

#[test]
fn test_modify_cmds_by_output() {
    let mut db = setup();
    db.begin().unwrap();

    let cmd = insert_cmd(&mut db, DOT_DT, "gcc main.c");
    let output = db
        .node_insert(DOT_DT, "main.o", NodeType::Generated, 0, 0, -1, None, None)
        .unwrap();
    db.link_insert(cmd, output, LinkType::Normal);

    let count = db.modify_cmds_by_output(output);
    assert_eq!(count, 1);

    // Command should now be in modify_list
    assert!(db.flag_check(cmd, TupFlags::Modify));

    db.commit().unwrap();
}

#[test]
fn test_modify_cmds_by_input() {
    let mut db = setup();
    db.begin().unwrap();

    let input = insert_file(&mut db, DOT_DT, "input.c");
    let cmd = insert_cmd(&mut db, DOT_DT, "gcc input.c");
    db.link_insert(input, cmd, LinkType::Normal);

    db.modify_cmds_by_input(input);
    assert!(db.flag_check(cmd, TupFlags::Modify));

    db.commit().unwrap();
}

#[test]
fn test_set_dependent_dir_flags() {
    let mut db = setup();
    db.begin().unwrap();

    // Create a file that's included by a directory (via normal_link)
    let file = insert_file(&mut db, DOT_DT, "rules.tup");
    let subdir = db
        .node_insert(DOT_DT, "subdir", NodeType::Dir, 0, 0, -1, None, None)
        .unwrap();
    db.link_insert(file, subdir, LinkType::Normal);

    db.set_dependent_dir_flags(file);
    assert!(db.flag_check(subdir, TupFlags::Create));

    db.commit().unwrap();
}

#[test]
fn test_dir_nodes_by_type() {
    let mut db = setup();
    db.begin().unwrap();

    insert_file(&mut db, DOT_DT, "a.c");
    insert_file(&mut db, DOT_DT, "b.c");
    insert_cmd(&mut db, DOT_DT, "gcc");

    let files = db.dir_nodes_by_type(DOT_DT, NodeType::File);
    assert_eq!(files.len(), 2);

    let cmds = db.dir_nodes_by_type(DOT_DT, NodeType::Cmd);
    assert_eq!(cmds.len(), 1);

    db.commit().unwrap();
}

#[test]
fn test_rebuild_all() {
    let mut db = setup();
    db.begin().unwrap();

    let cmd1 = insert_cmd(&mut db, DOT_DT, "gcc a.c");
    let cmd2 = insert_cmd(&mut db, DOT_DT, "gcc b.c");
    insert_file(&mut db, DOT_DT, "a.c"); // Not a command

    db.rebuild_all();
    assert!(db.flag_check(cmd1, TupFlags::Modify));
    assert!(db.flag_check(cmd2, TupFlags::Modify));

    db.commit().unwrap();
}

#[test]
fn test_reparse_all() {
    let mut db = setup();
    db.begin().unwrap();

    let dir1 = db
        .node_insert(DOT_DT, "dir1", NodeType::Dir, 0, 0, -1, None, None)
        .unwrap();
    let dir2 = db
        .node_insert(DOT_DT, "dir2", NodeType::Dir, 0, 0, -1, None, None)
        .unwrap();

    db.reparse_all();
    assert!(db.flag_check(dir1, TupFlags::Create));
    assert!(db.flag_check(dir2, TupFlags::Create));
    // DOT_DT is also a Dir, so it should be flagged too
    assert!(db.flag_check(DOT_DT, TupFlags::Create));

    db.commit().unwrap();
}

#[test]
fn test_is_generated_dir() {
    let mut db = setup();
    db.begin().unwrap();

    let dir = db
        .node_insert(DOT_DT, "build", NodeType::Dir, 0, 0, -1, None, None)
        .unwrap();

    // Empty dir is not generated
    assert!(!db.is_generated_dir(dir));

    // Dir with a generated file is generated
    db.node_insert(dir, "output.o", NodeType::Generated, 0, 0, -1, None, None)
        .unwrap();
    assert!(db.is_generated_dir(dir));

    // Dir with a regular file is NOT generated
    insert_file(&mut db, dir, "source.c");
    assert!(!db.is_generated_dir(dir));

    db.commit().unwrap();
}
