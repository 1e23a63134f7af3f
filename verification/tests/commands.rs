//! Commands of rules.
#![allow(unused_mut)]
use tup::db::commands::{
    command_node_name, get_modified_commands, mark_command_done, store_rules, RuleToStore,
};
use tup::db::entry::EntryCache;
use tup::db::tables::{TupDb, TupFlags};
use tup::types::{LinkType, NodeType, TupId};

const DOT_DT: TupId = TupId(1);

fn setup() -> (TupDb, EntryCache) {
    let mut db = TupDb::create_in_memory();
    let mut cache = EntryCache::new();
    cache.load(&db, DOT_DT).unwrap();
    (db, cache)
}

#[test]
fn test_store_simple_rule() {
    let (mut db, mut cache) = setup();
    db.begin().unwrap();

    // Create an input file first
    db.node_insert(
        DOT_DT,
        "main.c",
        NodeType::File,
        1000,
        0,
        -1,
        None,
        None,
    )
    .unwrap();

    let rules = vec![RuleToStore {
        command: "gcc -c main.c -o main.o".to_string(),
        inputs: vec!["main.c".to_string()],
        order_only_inputs: vec![],
        outputs: vec!["main.o".to_string()],
        extra_outputs: vec![],
        display: Some("CC main.c".to_string()),
        flags: None,
    }];

    let stored = store_rules(&mut db, &mut cache, DOT_DT, &rules).unwrap();
    assert_eq!(stored.commands.len(), 1);

    // CMD should exist in DB
    let cmd = db
        .node_select_by_id(stored.commands[0].cmd_id)
        .unwrap();
    assert_eq!(cmd.node_type, NodeType::Cmd);
    assert_eq!(cmd.display, Some("CC main.c".to_string()));

    // CMD should be in modify list
    assert!(db
        .flag_check(stored.commands[0].cmd_id, TupFlags::Modify));

    // Output should exist as Generated
    let output = db
        .node_select(DOT_DT, "main.o")
        .unwrap();
    assert_eq!(output.node_type, NodeType::Generated);

    // Input links should be STICKY (C tup uses sticky for declared inputs)
    assert!(db
        .link_exists(
            db.node_select(DOT_DT, "main.c")
                .unwrap()
                .id,
            stored.commands[0].cmd_id,
            LinkType::Sticky,
        ));

    db.commit().unwrap();
}

#[test]
fn test_store_same_rule_twice() {
    let (mut db, mut cache) = setup();
    db.begin().unwrap();

    let rules = vec![RuleToStore {
        command: "echo hello".to_string(),
        inputs: vec![],
        order_only_inputs: vec![],
        outputs: vec!["out.txt".to_string()],
        extra_outputs: vec![],
        display: None,
        flags: None,
    }];

    let stored1 = store_rules(&mut db, &mut cache, DOT_DT, &rules).unwrap();
    // Clear modify flag
    mark_command_done(&mut db, stored1.commands[0].cmd_id);

    // Store same rule again — should not re-flag
    let stored2 = store_rules(&mut db, &mut cache, DOT_DT, &rules).unwrap();
    assert_eq!(stored1.commands[0].cmd_id, stored2.commands[0].cmd_id);
    assert!(!db
        .flag_check(stored2.commands[0].cmd_id, TupFlags::Modify));

    db.commit().unwrap();
}

#[test]
fn test_store_changed_display() {
    let (mut db, mut cache) = setup();
    db.begin().unwrap();

    let rules1 = vec![RuleToStore {
        command: "gcc -c foo.c".to_string(),
        inputs: vec![],
        order_only_inputs: vec![],
        outputs: vec![],
        extra_outputs: vec![],
        display: Some("CC foo.c".to_string()),
        flags: None,
    }];
    let stored1 = store_rules(&mut db, &mut cache, DOT_DT, &rules1).unwrap();
    mark_command_done(&mut db, stored1.commands[0].cmd_id);

    // Change display string
    let rules2 = vec![RuleToStore {
        command: "gcc -c foo.c".to_string(),
        inputs: vec![],
        order_only_inputs: vec![],
        outputs: vec![],
        extra_outputs: vec![],
        display: Some("COMPILE foo.c".to_string()),
        flags: None,
    }];
    let stored2 = store_rules(&mut db, &mut cache, DOT_DT, &rules2).unwrap();

    // Should be re-flagged due to display change
    assert!(db
        .flag_check(stored2.commands[0].cmd_id, TupFlags::Modify));

    db.commit().unwrap();
}

#[test]
fn test_get_modified_commands() {
    let (mut db, mut cache) = setup();
    db.begin().unwrap();

    let rules = vec![
        RuleToStore {
            command: "cmd1".to_string(),
            inputs: vec![],
            order_only_inputs: vec![],
            outputs: vec![],
            extra_outputs: vec![],
            display: None,
            flags: None,
        },
        RuleToStore {
            command: "cmd2".to_string(),
            inputs: vec![],
            order_only_inputs: vec![],
            outputs: vec![],
            extra_outputs: vec![],
            display: None,
            flags: None,
        },
    ];
    store_rules(&mut db, &mut cache, DOT_DT, &rules).unwrap();

    let modified = get_modified_commands(&db);
    assert_eq!(modified.len(), 2);

    db.commit().unwrap();
}

#[test]
fn test_mark_command_done() {
    let (mut db, mut cache) = setup();
    db.begin().unwrap();

    let rules = vec![RuleToStore {
        command: "test cmd".to_string(),
        inputs: vec![],
        order_only_inputs: vec![],
        outputs: vec![],
        extra_outputs: vec![],
        display: None,
        flags: None,
    }];
    let stored = store_rules(&mut db, &mut cache, DOT_DT, &rules).unwrap();

    assert!(db
        .flag_check(stored.commands[0].cmd_id, TupFlags::Modify));
    mark_command_done(&mut db, stored.commands[0].cmd_id);
    assert!(!db
        .flag_check(stored.commands[0].cmd_id, TupFlags::Modify));

    db.commit().unwrap();
}

#[test]
fn test_command_node_name_is_full_string() {
    // C tup stores the full command string as the node name
    let name = command_node_name("gcc -c foo.c -o foo.o");
    assert_eq!(name, "gcc -c foo.c -o foo.o");
}

#[test]
fn test_command_node_name_different() {
    let n1 = command_node_name("gcc -c foo.c");
    let n2 = command_node_name("gcc -c bar.c");
    assert_ne!(n1, n2);
}

#[test]
fn rules_that_are_stored_again_run_nothing() {
    let (mut db, mut cache) = setup();
    let rule = |command: &str, output: &str| RuleToStore {
        command: command.to_string(),
        inputs: vec![],
        order_only_inputs: vec![],
        outputs: vec![output.to_string()],
        extra_outputs: vec![format!("{output}.log")],
        display: None,
        flags: None,
    };
    let rules = vec![rule("make a", "a"), rule("make b", "b")];
    let first = store_rules(&mut db, &mut cache, DOT_DT, &rules).unwrap();
    assert_eq!(first.commands.len(), 2);
    for cmd in &first.commands {
        assert_eq!(db.node_select_by_id(cmd.cmd_id).unwrap().node_type, NodeType::Cmd);
    }
    db.flags_clear_all();
    let second = store_rules(&mut db, &mut cache, DOT_DT, &rules).unwrap();
    assert!(second.stale_outputs.is_empty());
    for (a, b) in first.commands.iter().zip(&second.commands) {
        assert_eq!(a.cmd_id, b.cmd_id);
        assert!(!db.flag_check(a.cmd_id, TupFlags::Modify));
    }
}

#[test]
fn an_extra_output_of_a_stale_command_is_made_again() {
    let (mut db, mut cache) = setup();
    let rule = |command: &str| RuleToStore {
        command: command.to_string(),
        inputs: vec![],
        order_only_inputs: vec![],
        outputs: vec![],
        extra_outputs: vec!["log".to_string()],
        display: None,
        flags: None,
    };
    store_rules(&mut db, &mut cache, DOT_DT, &[rule("old")]).unwrap();
    let first = store_rules(&mut db, &mut cache, DOT_DT, &[rule("new")]).unwrap();
    assert_eq!(first.stale_outputs, vec!["log"]);
    assert!(db.node_select(DOT_DT, "log").is_none());
    mark_command_done(&mut db, first.commands[0].cmd_id);
    let second = store_rules(&mut db, &mut cache, DOT_DT, &[rule("new")]).unwrap();
    assert_eq!(second.commands[0].cmd_id, first.commands[0].cmd_id);
    assert!(second.stale_outputs.is_empty());
    assert!(!db.flag_check(first.commands[0].cmd_id, TupFlags::Modify));
    assert!(db.node_select(DOT_DT, "log").is_some());
}
