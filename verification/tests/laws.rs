//! Properties of several calls, on some values.
use tup::db::entry::EntryCache;
use tup::db::path_resolve::resolve_full_path;
use tup::db::sync::{sync_filesystem, FsKind, FsNode};
use tup::db::tables::{TupDb, TupFlags};
use tup::db::vardb::VarDb;
use tup::db::variant::VariantRegistry;
use tup::graph::dag::Graph;
use tup::parser::line::join_continuation_lines;
use tup::parser::lua::preprocess_lua_plus_equals;
use tup::paths::compute_relative_path;
use tup::types::{LinkType, NodeType, TupId};

fn file(name: &str, mtime: i64) -> FsNode {
    FsNode { name: name.to_string(), kind: FsKind::File { mtime, mtime_ns: 7 } }
}

fn dir(
    name: &str,
    tupfile: Option<(i64, i64)>,
    tupfile_lua: Option<(i64, i64)>,
    entries: Vec<FsNode>,
) -> FsNode {
    FsNode { name: name.to_string(), kind: FsKind::Dir { tupfile, tupfile_lua, entries } }
}

fn some_tree() -> Vec<FsNode> {
    let deep = dir("deep", None, None, vec![file("a.c", 1), file("b.c", 2)]);
    let lib = dir(
        "lib",
        Some((5, 7)),
        Some((6, 7)),
        vec![file("Tupfile", 5), file("Tupfile.lua", 6), deep],
    );
    vec![file("a.c", 3), lib, dir("empty", None, None, vec![]), file(".hidden", 9)]
}

#[test]
fn synchronizing_twice() {
    let mut db = TupDb::create_in_memory();
    let mut cache = EntryCache::new();
    let first = sync_filesystem(&mut db, &mut cache, &some_tree()).unwrap();
    assert_eq!((first.files_added, first.dirs_added), (4, 3));
    let before = db.snapshot();
    let second = sync_filesystem(&mut db, &mut cache, &some_tree()).unwrap();
    assert_eq!((second.files_added, second.files_modified), (0, 0));
    assert_eq!((second.files_deleted, second.dirs_added), (0, 0));
    let after = db.snapshot();
    assert_eq!(after.nodes.len(), before.nodes.len());
    assert_eq!((after.create, after.modify), (before.create, before.modify));
}

#[test]
fn what_is_gone_is_found_again() {
    let mut db = TupDb::create_in_memory();
    let mut cache = EntryCache::new();
    sync_filesystem(&mut db, &mut cache, &some_tree()).unwrap();
    let left = vec![file("a.c", 3)];
    let first = sync_filesystem(&mut db, &mut cache, &left).unwrap();
    assert_eq!((first.files_added, first.files_modified, first.files_deleted), (0, 0, 2));
    let marked = db.flag_list(TupFlags::Modify);
    let second = sync_filesystem(&mut db, &mut cache, &left).unwrap();
    assert_eq!((second.files_added, second.files_modified, second.files_deleted), (0, 0, 2));
    assert_eq!(db.flag_list(TupFlags::Modify), marked);
}

#[test]
fn a_virtual_name_is_refused_the_second_time() {
    let mut db = TupDb::create_in_memory();
    let mut cache = EntryCache::new();
    let tree = vec![dir("sub", None, None, vec![file("$", 1)])];
    assert!(sync_filesystem(&mut db, &mut cache, &tree).is_ok());
    assert!(sync_filesystem(&mut db, &mut cache, &tree).is_err());
}

#[test]
fn ways_between_directories() {
    assert_eq!(compute_relative_path("/p/a/b", "/p/a/c/d"), "../c/d");
    assert_eq!(compute_relative_path("/p/a/b/", "/p"), "../..");
    assert_eq!(compute_relative_path("/p", "/p/a"), "a");
    assert_eq!(compute_relative_path("/p/./x/..", "/p"), ".");
    assert_eq!(compute_relative_path("/", "/usr/lib"), "usr/lib");
}

#[test]
fn a_set_of_variables_and_itself() {
    let mut vars = VarDb::new();
    vars.set("A", "1", None);
    vars.set("B", "2", Some(TupId::new(4)));
    let diff = vars.compare(&vars);
    assert!(diff.only_in_a.is_empty() && diff.only_in_b.is_empty());
    assert_eq!(diff.in_both.len(), 2);
    assert_eq!(diff.in_both[1].0.value, diff.in_both[1].1.value);
}

#[test]
fn the_first_variant_of_a_directory_stays() {
    let mut all = VariantRegistry::new();
    all.add(TupId::new(7), TupId::new(8), "build-a");
    all.add(TupId::new(7), TupId::new(9), "build-b");
    assert_eq!(all.len(), 1);
    assert_eq!(all.search(TupId::new(7)).unwrap().variant_dir, "build-a");
}

#[test]
fn texts_that_stay() {
    assert_eq!(join_continuation_lines("a\nb\n"), "a\nb\n");
    assert_eq!(join_continuation_lines("a \\\n  b\n"), "a  b\n");
    assert_eq!(preprocess_lua_plus_equals("x = 1\n-- a += b\n"), "x = 1\n-- a += b\n");
    assert_eq!(
        preprocess_lua_plus_equals("x += 'c'\n"),
        "x = tup_append_assignment(x, 'c')\n",
    );
}

#[test]
fn a_path_and_back() {
    let mut db = TupDb::create_in_memory();
    let mut cache = EntryCache::new();
    sync_filesystem(&mut db, &mut cache, &some_tree()).unwrap();
    let lib = db.node_select(TupId::new(1), "lib").unwrap().id;
    let deep = db.node_select(lib, "deep").unwrap().id;
    let file = db.node_select(deep, "b.c").unwrap().id;
    cache.load(&db, file).unwrap();
    let path = cache.full_path(file).unwrap();
    assert_eq!(path, "lib/deep/b.c");
    let found = resolve_full_path(&db, &mut cache, TupId::new(1), &path).unwrap();
    assert_eq!(found, Some(file));
}

#[test]
fn an_order_and_what_is_ready() {
    let id = |n: i64| TupId::new(n);
    let mut graph = Graph::new(NodeType::Cmd);
    for n in [5, 7, 10, 2] {
        graph.create_node(id(n), NodeType::Cmd);
    }
    graph.create_edge(id(10), id(5), LinkType::Normal).unwrap();
    graph.create_edge(id(7), id(2), LinkType::Normal).unwrap();
    graph.create_edge(id(7), id(5), LinkType::Sticky).unwrap();
    let order = graph.topological_sort().unwrap();
    assert_eq!(order, vec![graph.root(), id(7), id(10), id(2), id(5)]);
    let mut done = Vec::new();
    while done.len() < 4 {
        let ready = graph.ready_nodes();
        assert!(!ready.is_empty());
        graph.finish_node(ready[0]);
        done.push(ready[0]);
    }
    assert_eq!(done, vec![id(7), id(2), id(10), id(5)]);
    assert!(graph.ready_nodes().is_empty());
}
