//! What commands wrote.
use tup::db::output_tracking::{track_outputs, OutputState};
use tup::db::tables::TupDb;
use tup::types::{NodeType, TupId};

const DOT_DT: TupId = TupId(1);
const NOW: (i64, i64) = (1_700_000_000, 5);

fn written(name: &str) -> OutputState {
    OutputState { name: name.to_string(), mtime: Some((1_600_000_000, 7)) }
}

fn missing(name: &str) -> OutputState {
    OutputState { name: name.to_string(), mtime: None }
}

#[test]
fn test_track_outputs_present() {
    let mut db = TupDb::create_in_memory();
    db.begin().unwrap();

    let cmd_id = db
        .node_insert(DOT_DT, "gcc -c foo.c", NodeType::Cmd, -1, 0, -1, None, None)
        .unwrap();

    let result = track_outputs(&mut db, cmd_id, DOT_DT, &[written("output.o")], NOW).unwrap();

    assert_eq!(result.updated, 1);
    assert!(result.missing.is_empty());

    let node = db.node_select(DOT_DT, "output.o").unwrap();
    assert_eq!(node.node_type, NodeType::Generated);
    assert!(node.mtime > 0);
    assert_eq!((node.mtime, node.mtime_ns), (1_600_000_000, 7));
    assert_eq!(node.srcid, cmd_id.raw());

    db.commit().unwrap();
}

#[test]
fn test_track_outputs_missing() {
    let mut db = TupDb::create_in_memory();
    db.begin().unwrap();

    let cmd_id = db
        .node_insert(DOT_DT, "gcc -c foo.c", NodeType::Cmd, -1, 0, -1, None, None)
        .unwrap();

    let result = track_outputs(&mut db, cmd_id, DOT_DT, &[missing("missing.o")], NOW).unwrap();

    assert_eq!(result.updated, 0);
    assert_eq!(result.missing, vec!["missing.o"]);

    db.commit().unwrap();
}

#[test]
fn test_track_outputs_updates_existing() {
    let mut db = TupDb::create_in_memory();
    db.begin().unwrap();

    db.node_insert(DOT_DT, "result.o", NodeType::Generated, 100, 0, -1, None, None)
        .unwrap();
    let cmd_id = db.node_insert(DOT_DT, "gcc", NodeType::Cmd, -1, 0, -1, None, None).unwrap();

    let result = track_outputs(&mut db, cmd_id, DOT_DT, &[written("result.o")], NOW).unwrap();

    assert_eq!(result.updated, 1);
    let node = db.node_select(DOT_DT, "result.o").unwrap();
    assert!(node.mtime > 100);

    db.commit().unwrap();
}

#[test]
fn test_track_outputs_cmd_mtime_updated() {
    let mut db = TupDb::create_in_memory();
    db.begin().unwrap();

    let cmd_id = db.node_insert(DOT_DT, "echo hi", NodeType::Cmd, -1, 0, -1, None, None).unwrap();

    track_outputs(&mut db, cmd_id, DOT_DT, &[], NOW).unwrap();

    let cmd = db.node_select_by_id(cmd_id).unwrap();
    assert!(cmd.mtime > 0);
    assert_eq!((cmd.mtime, cmd.mtime_ns), NOW);

    db.commit().unwrap();
}
