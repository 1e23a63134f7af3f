use tup::db::errors::DbError;
use tup::db::rows::NodeRow;
use tup::db::snapshot::Snapshot;
use tup::db::tables::{dot_dt, TupDb, TupFlags};
use tup::numbers::{parse_i32, parse_i64, parse_usize, IntError};
use tup::types::{LinkType, NodeType, TupId};

fn filled() -> (TupDb, TupId, TupId, TupId) {
    let mut db = TupDb::create_in_memory();
    let a = db.node_insert(dot_dt(), "a.c", NodeType::File, 10, 20, -1, None, None).unwrap();
    let c = db
        .node_insert(dot_dt(), "cc a.c", NodeType::Cmd, -1, 0, -1, Some("CC"), Some("j"))
        .unwrap();
    let g = db.node_insert(dot_dt(), "<objs>", NodeType::Group, -1, 0, -1, None, None).unwrap();
    db.link_insert(a, c, LinkType::Normal);
    db.link_insert(c, a, LinkType::Sticky);
    db.link_insert_group(a, g, c);
    db.flag_add(a, TupFlags::Modify);
    db.flag_add(c, TupFlags::Create);
    db.flag_add(g, TupFlags::Config);
    db.flag_add(a, TupFlags::Variant);
    db.flag_add(c, TupFlags::Transient);
    db.var_set(a, "value");
    db.config_set_string("config_hash", "0123");
    (db, a, c, g)
}

#[test]
fn snapshot_gives_the_database_back() {
    let (db, a, c, g) = filled();
    let back = TupDb::from_snapshot(&db.snapshot()).unwrap();
    assert_eq!(back.node_count(), db.node_count());
    assert_eq!(back.node_ids(), db.node_ids());
    let row = back.node_select(dot_dt(), "cc a.c").unwrap();
    assert_eq!(row.id, c);
    assert_eq!(row.node_type, NodeType::Cmd);
    assert_eq!(row.display, Some("CC".to_string()));
    assert_eq!(row.flags, Some("j".to_string()));
    let row = back.node_select_by_id(a).unwrap();
    assert_eq!((row.mtime, row.mtime_ns, row.srcid), (10, 20, -1));
    assert!(back.link_exists(a, c, LinkType::Normal));
    assert!(!back.link_exists(c, a, LinkType::Normal));
    assert!(back.link_exists(c, a, LinkType::Sticky));
    assert!(!back.link_exists(a, c, LinkType::Sticky));
    assert_eq!(back.get_group_links(a), vec![(g, c)]);
    assert_eq!(back.flag_list(TupFlags::Modify), db.flag_list(TupFlags::Modify));
    assert_eq!(back.flag_list(TupFlags::Create), db.flag_list(TupFlags::Create));
    assert_eq!(back.flag_list(TupFlags::Config), vec![g]);
    assert_eq!(back.flag_list(TupFlags::Variant), vec![a]);
    assert_eq!(back.flag_list(TupFlags::Transient), vec![c]);
    assert_eq!(back.var_get(a), Some("value".to_string()));
    assert_eq!(back.var_get(c), None);
    assert_eq!(back.config_get_string("config_hash", ""), "0123");
    assert!(back.version_check().is_ok());
}

#[test]
fn snapshot_lists_each_table() {
    let (db, a, c, g) = filled();
    let s = db.snapshot();
    assert_eq!(s.nodes.len(), db.node_count());
    assert_eq!(s.normal, vec![(a, c)]);
    assert_eq!(s.sticky, vec![(c, a)]);
    assert_eq!(s.group, vec![(a, g, c)]);
    assert_eq!(s.config, vec![g]);
    assert_eq!(s.variant, vec![a]);
    assert_eq!(s.transient, vec![c]);
    assert_eq!(s.vars, vec![(a, "value".to_string())]);
}

fn row(id: i64, dir: i64, name: &str) -> NodeRow {
    NodeRow {
        id: TupId::new(id),
        dir: TupId::new(dir),
        node_type: NodeType::File,
        name: name.to_string(),
        display: None,
        flags: None,
        mtime: 0,
        mtime_ns: 0,
        srcid: -1,
    }
}

fn only_nodes(nodes: Vec<NodeRow>) -> Snapshot {
    Snapshot {
        nodes,
        normal: vec![],
        sticky: vec![],
        group: vec![],
        config: vec![],
        create: vec![],
        modify: vec![],
        variant: vec![],
        transient: vec![],
        vars: vec![],
        settings: vec![],
    }
}

#[test]
fn snapshot_with_a_name_twice_is_refused() {
    let twice = only_nodes(vec![row(1, 0, "."), row(2, 1, "x"), row(3, 1, "x")]);
    assert!(matches!(TupDb::from_snapshot(&twice), Err(DbError::Sqlite(_))));
    let apart = only_nodes(vec![row(1, 0, "."), row(2, 1, "x"), row(3, 2, "x")]);
    let db = TupDb::from_snapshot(&apart).unwrap();
    assert_eq!(db.node_count(), 3);
    assert_eq!(db.node_select(TupId::new(2), "x").unwrap().id, TupId::new(3));
}

#[test]
fn numbers_are_read_as_written() {
    assert_eq!(parse_i32("-2147483648").ok(), Some(i32::MIN));
    assert!(matches!(parse_i32("2147483648"), Err(IntError::TooLarge)));
    assert!(matches!(parse_i32("-2147483649"), Err(IntError::TooSmall)));
    assert_eq!(parse_i64("+17").ok(), Some(17));
    assert!(matches!(parse_i64(""), Err(IntError::Empty)));
    assert!(matches!(parse_i64("1x"), Err(IntError::InvalidDigit)));
    assert_eq!(parse_usize("8").ok(), Some(8));
    assert!(parse_usize("-8").is_err());
}

#[test]
fn identifiers_that_are_free_are_given_after_the_last() {
    let mut all = TupDb::create_in_memory().snapshot();
    let used = all.nodes.len() as i64;
    let last = NodeRow {
        id: TupId::new(i64::MAX),
        dir: dot_dt(),
        node_type: NodeType::File,
        mtime: 1,
        mtime_ns: 0,
        srcid: -1,
        name: "last".to_string(),
        display: None,
        flags: None,
    };
    all.nodes.push(last);
    let mut db = TupDb::from_snapshot(&all).unwrap();
    assert_eq!(db.node_ids().last(), Some(&TupId::new(i64::MAX)));
    let a = db.node_insert(dot_dt(), "a", NodeType::File, 1, 0, -1, None, None).unwrap();
    let b = db.node_insert(dot_dt(), "b", NodeType::File, 1, 0, -1, None, None).unwrap();
    assert_eq!((a, b), (TupId::new(used + 1), TupId::new(used + 2)));
    assert_eq!(db.node_select(dot_dt(), "a").unwrap().id, a);
}
