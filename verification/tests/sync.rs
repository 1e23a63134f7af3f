//! The database follows the file system.
use tup::db::entry::EntryCache;
use tup::db::sync::{
    arrange_entries, check_tupfile_changed, is_tupfile_name, sync_filesystem, DirEntry, FsKind,
    FsNode,
};
use tup::db::tables::{TupDb, TupFlags};
use tup::types::{NodeType, TupId};

const DOT_DT: TupId = TupId(1);

fn file(name: &str, mtime: i64) -> FsNode {
    FsNode { name: name.to_string(), kind: FsKind::File { mtime, mtime_ns: 0 } }
}

fn dir(name: &str, tupfile: Option<(i64, i64)>, entries: Vec<FsNode>) -> FsNode {
    FsNode { name: name.to_string(), kind: FsKind::Dir { tupfile, tupfile_lua: None, entries } }
}

fn project() -> (TupDb, EntryCache) {
    (TupDb::create_in_memory(), EntryCache::new())
}

#[test]
fn test_sync_empty_project() {
    let (mut db, mut cache) = project();
    let result = sync_filesystem(&mut db, &mut cache, &vec![]).unwrap();
    assert_eq!(result.files_added, 0);
    assert_eq!(result.files_modified, 0);
}

#[test]
fn test_sync_new_files() {
    let (mut db, mut cache) = project();
    let there = vec![file("hello.c", 10), file("hello.h", 10)];
    let result = sync_filesystem(&mut db, &mut cache, &there).unwrap();
    assert_eq!(result.files_added, 2);
}

#[test]
fn test_sync_modified_file() {
    let (mut db, mut cache) = project();
    sync_filesystem(&mut db, &mut cache, &vec![file("file.c", 10)]).unwrap();
    let result = sync_filesystem(&mut db, &mut cache, &vec![file("file.c", 11)]).unwrap();
    assert!(result.files_modified > 0);
}

#[test]
fn test_sync_deleted_file() {
    let (mut db, mut cache) = project();
    sync_filesystem(&mut db, &mut cache, &vec![file("temp.c", 10)]).unwrap();
    let result = sync_filesystem(&mut db, &mut cache, &vec![]).unwrap();
    assert_eq!(result.files_deleted, 1);
}

#[test]
fn test_sync_new_directory() {
    let (mut db, mut cache) = project();
    let there = vec![dir("src", None, vec![file("main.c", 10)])];
    let result = sync_filesystem(&mut db, &mut cache, &there).unwrap();
    assert_eq!(result.dirs_added, 1);
    assert_eq!(result.files_added, 1);
}

#[test]
fn test_sync_tupfile_flags_directory() {
    let (mut db, mut cache) = project();
    let result = sync_filesystem(&mut db, &mut cache, &vec![file("Tupfile", 10)]).unwrap();
    assert!(result.dirs_flagged > 0);
}

#[test]
fn test_sync_subdirectory_tupfile() {
    let (mut db, mut cache) = project();
    let there = vec![dir("lib", Some((10, 0)), vec![file("Tupfile", 10), file("helper.c", 10)])];
    let result = sync_filesystem(&mut db, &mut cache, &there).unwrap();
    assert!(result.dirs_added >= 1);
    assert!(result.dirs_flagged >= 1);
    assert!(result.files_added >= 1);
}

#[test]
fn test_sync_no_change_second_run() {
    let (mut db, mut cache) = project();
    sync_filesystem(&mut db, &mut cache, &vec![file("stable.c", 10)]).unwrap();
    let result = sync_filesystem(&mut db, &mut cache, &vec![file("stable.c", 10)]).unwrap();
    assert_eq!(result.files_added, 0);
    assert_eq!(result.files_modified, 0);
    assert_eq!(result.files_deleted, 0);
}

#[test]
fn test_sync_skips_hidden_files() {
    let (mut db, mut cache) = project();
    let there = vec![file(".hidden", 10), file("visible.c", 10)];
    let result = sync_filesystem(&mut db, &mut cache, &there).unwrap();
    assert_eq!(result.files_added, 1);
    assert!(db.node_select(DOT_DT, ".hidden").is_none());
}

#[test]
fn a_changed_file_reaches_its_commands() {
    let (mut db, mut cache) = project();
    sync_filesystem(&mut db, &mut cache, &vec![file("a.c", 10)]).unwrap();
    let input = db.node_select(DOT_DT, "a.c").unwrap().id;
    let cmd = db.node_insert(DOT_DT, "cc a.c", NodeType::Cmd, -1, 0, -1, None, None).unwrap();
    db.link_insert(input, cmd, tup::types::LinkType::Sticky);
    db.flags_clear_all();
    sync_filesystem(&mut db, &mut cache, &vec![file("a.c", 12)]).unwrap();
    assert!(db.flag_check(cmd, TupFlags::Modify));
}

#[test]
fn entries_are_arranged_by_name() {
    let entry = |name: &str, is_dir: bool| DirEntry {
        name: name.to_string(),
        is_dir,
        mtime: 0,
        mtime_ns: 0,
    };
    let out = arrange_entries(vec![
        entry("z", false),
        entry(".git", true),
        entry("b", true),
        entry("a", false),
    ]);
    let names: Vec<&str> = out.iter().map(|e| e.name.as_str()).collect();
    assert_eq!(names, vec!["a", "b", "z"]);
}

#[test]
fn names_of_tupfiles() {
    assert!(is_tupfile_name("Tupfile"));
    assert!(is_tupfile_name("Tupfile.lua"));
    assert!(!is_tupfile_name("tupfile"));
}

#[test]
fn a_tupfile_that_changed_is_noticed_once() {
    let (mut db, _cache) = project();
    assert!(check_tupfile_changed(&mut db, DOT_DT, Some((10, 0)), None).unwrap());
    assert!(!check_tupfile_changed(&mut db, DOT_DT, Some((10, 0)), None).unwrap());
    assert!(check_tupfile_changed(&mut db, DOT_DT, Some((11, 0)), None).unwrap());
    assert!(!check_tupfile_changed(&mut db, DOT_DT, None, None).unwrap());
    db.flag_add(DOT_DT, TupFlags::Create);
    assert!(check_tupfile_changed(&mut db, DOT_DT, None, None).unwrap());
}

#[test]
fn a_deleted_file_is_removed() {
    let (mut db, mut cache) = project();
    sync_filesystem(&mut db, &mut cache, &vec![file("a.c", 10), file("b.c", 10)]).unwrap();
    let a = db.node_select(DOT_DT, "a.c").unwrap().id;
    db.flags_clear_all();
    let r = sync_filesystem(&mut db, &mut cache, &vec![file("b.c", 10)]).unwrap();
    assert_eq!(r.files_deleted, 1);
    assert!(db.node_select(DOT_DT, "a.c").is_none());
    assert!(cache.find(a).is_none());
    assert!(db.node_select(DOT_DT, "b.c").is_some());
    assert!(db.flag_check(DOT_DT, TupFlags::Create));
    let again = sync_filesystem(&mut db, &mut cache, &vec![file("b.c", 10)]).unwrap();
    assert_eq!(again.files_deleted, 0);
}

#[test]
fn a_deleted_input_becomes_a_ghost() {
    let (mut db, mut cache) = project();
    sync_filesystem(&mut db, &mut cache, &vec![file("a.c", 10)]).unwrap();
    let input = db.node_select(DOT_DT, "a.c").unwrap().id;
    let cmd = db.node_insert(DOT_DT, "cc a.c", NodeType::Cmd, -1, 0, -1, None, None).unwrap();
    db.link_insert(input, cmd, tup::types::LinkType::Sticky);
    db.flags_clear_all();
    sync_filesystem(&mut db, &mut cache, &vec![]).unwrap();
    match db.node_select(DOT_DT, "a.c") {
        None => {}
        Some(row) => assert_eq!(row.node_type, NodeType::GhostNode),
    }
    assert!(db.flag_check(cmd, TupFlags::Modify));
    assert!(db.flag_check(DOT_DT, TupFlags::Create));
    let back = sync_filesystem(&mut db, &mut cache, &vec![file("a.c", 11)]).unwrap();
    assert_eq!(back.files_deleted, 0);
    assert_eq!(db.node_select(DOT_DT, "a.c").unwrap().node_type, NodeType::File);
}

#[test]
fn files_of_a_deleted_directory_are_removed() {
    let (mut db, mut cache) = project();
    let tree = vec![dir("src", Some((5, 0)), vec![file("Tupfile", 5), file("a.c", 1)])];
    sync_filesystem(&mut db, &mut cache, &tree).unwrap();
    let src = db.node_select(DOT_DT, "src").unwrap().id;
    sync_filesystem(&mut db, &mut cache, &vec![]).unwrap();
    assert!(db.node_select(src, "a.c").is_none());
    assert!(db.node_select(src, "Tupfile").is_none());
    assert!(db.flag_check(src, TupFlags::Modify));
}
