//! The steps of an update, from Tupfiles to commands.
use std::hash::{Hash, Hasher};

use tup::build::config::{load_config_vars, note_config, simple_hash, vardict_text};
use tup::build::dirs::{
    ensure_dir_nodes, link_between, node_exists, normalize_path, resolve_dir_id, resolve_dir_path,
    resolve_to_tup_relative, strip_dir, touch_path, try_canonicalize, Canonical, NoPath,
};
use tup::build::expand::{
    dirs_to_list, expand_globs_with_declared, expand_rules_for_dir, files_to_find,
    glob_matches_name, has_unescaped_percent, is_explicit_file_ref, is_group_or_bin,
    simple_glob_match,
};
use tup::build::run::Run;
use tup::build::spread::spread_modified;
use tup::build::update::{
    apply_config, clean_unparsed_dirs, commands_to_run, dirs_to_check, finish_commands,
    finish_update, gitignore_text, num_jobs, rules_to_store, run_rule, store_dir_rules, BuildError, Finished,
};
use tup::build::vars::sync_config_vars;
use tup::db::commands::get_modified_commands;
use tup::db::entry::EntryCache;
use tup::db::output_tracking::OutputState;
use tup::db::tables::{TupDb, TupFlags};
use tup::ordmap::OrdMap;
use tup::parser::glob::{Listing, Listings};
use tup::parser::reader::TupfileReader;
use tup::parser::rule::Rule;
use tup::parser::varsed::parse_vardict_text;
use tup::types::{LinkType, NodeType, TupId};

const DOT_DT: TupId = TupId(1);

fn listed(names: &[&str]) -> Listings {
    let mut out = Listings::new();
    out.insert(String::new(), Listing::Names(names.iter().map(|n| n.to_string()).collect()));
    out
}

fn present(names: &[&str]) -> OrdMap<String, ()> {
    let mut out = OrdMap::new();
    for n in names {
        out.insert(n.to_string(), ());
    }
    out
}

fn rules_of(content: &str) -> Vec<Rule> {
    TupfileReader::parse(content, "Tupfile").unwrap().evaluate().unwrap()
}

fn expand(content: &str, there: &[&str]) -> Result<Vec<Rule>, String> {
    expand_rules_for_dir(&rules_of(content), "/p/dir", &listed(there), &present(there))
}

// ------------------------------------------------ names and patterns

#[test]
fn names_of_files_groups_and_bins() {
    assert!(is_group_or_bin("<objs>"));
    assert!(is_group_or_bin("{objs}"));
    assert!(is_group_or_bin("dir/<objs>"));
    assert!(!is_group_or_bin("objs"));
    assert!(is_explicit_file_ref("main.c"));
    assert!(!is_explicit_file_ref(""));
    assert!(!is_explicit_file_ref("*.c"));
    assert!(!is_explicit_file_ref("../a.c"));
    assert!(!is_explicit_file_ref("src/a.c"));
    assert!(!is_explicit_file_ref("<objs>"));
}

#[test]
fn flags_in_commands() {
    assert!(has_unescaped_percent("gcc %f", "%f"));
    assert!(!has_unescaped_percent("echo 100%%f", "%f"));
    assert!(has_unescaped_percent("echo %%%f", "%f"));
    assert!(!has_unescaped_percent("echo %", "%f"));
    assert!(!has_unescaped_percent("gcc %o", "%f"));
}

#[test]
fn simple_patterns() {
    assert!(simple_glob_match("*.o", "a.o"));
    assert!(simple_glob_match("a?c*", "abcd"));
    assert!(!simple_glob_match("a?c", "ac"));
    assert!(!simple_glob_match("[a]", "a"));
    assert!(simple_glob_match("**", ""));
    assert!(glob_matches_name("src/*.o", "src/a.o"));
    assert!(!glob_matches_name("*.o", "src/a.o"));
}

#[test]
fn patterns_match_declared_outputs() {
    let patterns = vec!["*.o".to_string(), "x.c".to_string()];
    let declared = vec!["b.o".to_string(), "c.d".to_string(), "a.o".to_string()];
    let found = expand_globs_with_declared(&patterns, &listed(&["a.o", "z.o"]), &declared).unwrap();
    assert_eq!(found, vec!["a.o", "b.o", "z.o", "x.c"]);
}

// ------------------------------------------------ expanding rules

#[test]
fn a_foreach_rule_is_one_rule_for_each_input() {
    let rules = expand(": foreach *.c |> gcc -c %f -o %o |> %B.o\n", &["b.c", "a.c", "x.h"]).unwrap();
    assert_eq!(rules.len(), 2);
    assert_eq!(rules[0].command.command, "gcc -c a.c -o a.o");
    assert_eq!(rules[0].inputs, vec!["a.c"]);
    assert_eq!(rules[0].outputs, vec!["a.o"]);
    assert!(!rules[0].foreach);
    assert_eq!(rules[1].command.command, "gcc -c b.c -o b.o");
}

#[test]
fn outputs_of_earlier_rules_are_inputs() {
    let rules = expand(
        ": foreach *.c |> gcc -c %f -o %o |> %B.o\n: *.o |> gcc %f -o %o |> app\n",
        &["a.c", "b.c"],
    )
    .unwrap();
    assert_eq!(rules.len(), 3);
    assert_eq!(rules[2].inputs, vec!["a.o", "b.o"]);
    assert_eq!(rules[2].command.command, "gcc a.o b.o -o app");
}

#[test]
fn the_name_of_the_directory_and_literal_percents() {
    let rules = expand(": |> echo %d 100%% > %o |> out\n", &[]).unwrap();
    assert_eq!(rules[0].command.command, "echo dir 100% > out");
}

#[test]
fn bins_collect_outputs() {
    let mut rules = rules_of(": foreach *.c |> cc %f |> %B.o\n: {objs} |> ld %f |> app\n");
    rules[0].bin = Some("objs".to_string());
    let there = ["a.c", "b.c"];
    let out = expand_rules_for_dir(&rules, "/p", &listed(&there), &present(&there)).unwrap();
    assert_eq!(out[2].inputs, vec!["a.o", "b.o"]);
    assert_eq!(out[2].command.command, "ld a.o b.o");
}

#[test]
fn an_explicit_input_has_to_be_there() {
    assert_eq!(
        expand(": missing.c |> cc %f |> a.o\n", &[]).unwrap_err(),
        "tup error: Explicitly named file 'missing.c' not found"
    );
    assert_eq!(
        expand(": a.c | gone.h |> cc %f |> a.o\n", &["a.c"]).unwrap_err(),
        "tup error: Explicitly named file 'gone.h' not found"
    );
}

#[test]
fn flags_need_inputs() {
    for flag in ["%f", "%b", "%B"] {
        assert_eq!(
            expand(&format!(": |> cc {} |> a.o\n", flag), &[]).unwrap_err(),
            format!("tup error: {} used in rule pattern and no input files were specified", flag)
        );
    }
    assert_eq!(
        expand(": a.c |> cc %f %i |> a.o\n", &["a.c"]).unwrap_err(),
        "tup error: %i used in rule pattern and no order-only input files were specified"
    );
}

#[test]
fn every_output_has_one_owner() {
    assert_eq!(
        expand(": a.c |> one %f |> x x\n", &["a.c"]).unwrap_err(),
        "tup error: The output file 'x' is listed multiple times in a command"
    );
    assert_eq!(
        expand(": a.c |> one %f |> x\n: a.c |> two %f |> x\n", &["a.c"]).unwrap_err(),
        "tup error: Unable to create output file 'x' in 'two a.c' because it is already owned by \
         'one a.c'"
    );
}

#[test]
fn hidden_outputs_are_refused() {
    assert!(expand(": |> touch %o |> .secret\n", &[]).is_err());
}

#[test]
fn what_rules_look_for() {
    let rules = rules_of(": a.c src/*.c *.h | gen.h |> cc |> out\n");
    assert_eq!(files_to_find(&rules), vec!["a.c", "gen.h"]);
    let none = Listings::new();
    let there = present(&["a.c", "gen.h"]);
    assert_eq!(dirs_to_list(&rules, "/p", &none, &there, &[]), vec!["src", ""]);
    assert_eq!(dirs_to_list(&rules, "/p", &none, &there, &["".to_string()]), vec!["src"]);
    let mut rules = rules_of(": |> gen |> out/*.o\n: |> gen |> lib/*.o\n: {objs} |> ld |> app\n");
    rules[0].bin = Some("objs".to_string());
    assert_eq!(dirs_to_list(&rules, "/p", &none, &there, &[]), vec!["out"]);
}

#[test]
fn outputs_that_become_patterns_are_looked_for() {
    let mut rules = rules_of(": foreach src/* |> cc %f |> obj/%B.o\n: {objs} |> ld %f |> app\n");
    rules[0].bin = Some("objs".to_string());
    let none = OrdMap::new();
    let names = |n: &str| Listing::Names(vec![n.to_string()]);
    let mut listings = Listings::new();
    let mut asked = Vec::new();
    let first = dirs_to_list(&rules, "/p", &listings, &none, &asked);
    assert_eq!(first, vec!["src"]);
    listings.insert("src".to_string(), names("a[1].c"));
    asked.push("src".to_string());
    let second = dirs_to_list(&rules, "/p", &listings, &none, &asked);
    assert_eq!(second, vec!["obj"]);
    listings.insert("obj".to_string(), names("a1.o"));
    asked.push("obj".to_string());
    assert!(dirs_to_list(&rules, "/p", &listings, &none, &asked).is_empty());
    let done = expand_rules_for_dir(&rules, "/p", &listings, &none).unwrap();
    assert_eq!(done[0].outputs, vec!["obj/a[1].o"]);
    assert!(done[1].inputs.contains(&"obj/a1.o".to_string()));
}

#[test]
fn an_input_stands_once() {
    let rules = expand(": a.c *.c a.c |> cc %f |> out\n", &["a.c", "b.c"]).unwrap();
    assert_eq!(rules[0].inputs, vec!["a.c", "b.c"]);
}

// ------------------------------------------------ directories

#[test]
fn made_directories_are_found() {
    let mut db = TupDb::create_in_memory();
    assert!(resolve_dir_id(&db, "src/lib").is_err());
    let id = ensure_dir_nodes(&mut db, "src/lib").unwrap();
    assert_eq!(resolve_dir_id(&db, "src/lib").unwrap(), id);
    assert_eq!(ensure_dir_nodes(&mut db, "src/lib").unwrap(), id);
    assert_eq!(resolve_dir_path(&db, id, "/p").unwrap(), "/p/src/lib");
    assert_eq!(resolve_dir_id(&db, "").unwrap(), DOT_DT);
    assert_eq!(resolve_dir_id(&db, ".").unwrap(), DOT_DT);
    assert_eq!(resolve_dir_id(&db, "17").unwrap(), TupId::new(17));
    assert_eq!(resolve_dir_id(&db, "no/dir").unwrap_err(), "directory not found in DB: no/dir");
    assert_eq!(ensure_dir_nodes(&mut db, ".").unwrap(), DOT_DT);
}

#[test]
fn a_node_without_a_way_to_the_top_has_no_path() {
    let mut db = TupDb::create_in_memory();
    let e = resolve_dir_path(&db, TupId::new(99), "/p").unwrap_err();
    assert!(matches!(e, NoPath::Missing(_)));
    assert_eq!(e.message(), "node 99 not found");
    let a = db.node_insert(DOT_DT, "a", NodeType::Dir, -1, 0, -1, None, None).unwrap();
    let b = db.node_insert(a, "b", NodeType::Dir, -1, 0, -1, None, None).unwrap();
    db.node_set_name(a, "a", b).unwrap();
    assert!(matches!(resolve_dir_path(&db, b, "/p"), Err(NoPath::NoTop(_))));
}

#[test]
fn normal_paths() {
    assert_eq!(normalize_path("a/./b/../c"), "a/c");
    assert_eq!(normalize_path("../a"), "../a");
    assert_eq!(normalize_path("/x/y/.."), "/x");
    assert_eq!(normalize_path("."), "");
    assert_eq!(strip_dir("/p/src/a.c", "/p"), Some("src/a.c".to_string()));
    assert_eq!(strip_dir("/q/a.c", "/p"), None);
    assert_eq!(strip_dir("/p", "/p"), Some(String::new()));
}

#[test]
fn paths_of_a_user() {
    let none = Canonical { whole: None, parent: None };
    assert_eq!(
        resolve_to_tup_relative("/p/src", "/p", "../a.c", &none, &none).unwrap(),
        "a.c"
    );
    assert_eq!(
        resolve_to_tup_relative("/p", "/p", "/q/a.c", &none, &none).unwrap_err(),
        "path '/q/a.c' is outside tup root '/p'"
    );
    let file = Canonical { whole: None, parent: Some("/real/p/src".to_string()) };
    let root = Canonical { whole: Some("/real/p".to_string()), parent: None };
    assert_eq!(
        resolve_to_tup_relative("/link/src", "/p", "new.c", &file, &root).unwrap(),
        "src/new.c"
    );
    assert_eq!(try_canonicalize("/link/new.c", &file), Some("/real/p/src/new.c".to_string()));
    assert_eq!(try_canonicalize("/", &file), None);
}

#[test]
fn touched_files_are_marked() {
    let mut db = TupDb::create_in_memory();
    touch_path(&mut db, "src/a.c", false).unwrap();
    let src = resolve_dir_id(&db, "src").unwrap();
    let id = db.node_select(src, "a.c").unwrap().id;
    assert!(db.flag_check(id, TupFlags::Modify));
    assert!(!db.flag_check(id, TupFlags::Create));
    touch_path(&mut db, "new", true).unwrap();
    let dir = db.node_select(DOT_DT, "new").unwrap();
    assert_eq!(dir.node_type, NodeType::Dir);
    assert!(db.flag_check(dir.id, TupFlags::Create));
    assert!(touch_path(&mut db, "..", false).is_err());
    db.flags_clear_all();
    touch_path(&mut db, "src/a.c", false).unwrap();
    assert!(db.flag_check(id, TupFlags::Modify));
}

#[test]
fn nodes_and_links_by_name() {
    let mut db = TupDb::create_in_memory();
    touch_path(&mut db, "a", false).unwrap();
    touch_path(&mut db, "d/b", false).unwrap();
    assert!(node_exists(&db, ".", "a"));
    assert!(!node_exists(&db, "x", "a"));
    let a = db.node_select(DOT_DT, "a").unwrap().id;
    let d = resolve_dir_id(&db, "d").unwrap();
    let b = db.node_select(d, "b").unwrap().id;
    db.link_insert(a, b, LinkType::Normal);
    assert_eq!(link_between(&db, ".", "a", "d", "b", LinkType::Normal), Ok(true));
    assert_eq!(link_between(&db, ".", "a", "d", "b", LinkType::Sticky), Ok(false));
    assert_eq!(
        link_between(&db, ".", "z", "d", "b", LinkType::Normal),
        Err("node 'z' not found in dir '.'".to_string())
    );
    assert_eq!(
        link_between(&db, ".", "z", "no", "b", LinkType::Normal),
        Err("directory not found in DB: no".to_string())
    );
}

// ------------------------------------------------ the configuration

#[test]
fn a_configuration_is_read() {
    let vars = load_config_vars("CONFIG_A=1\n# CONFIG_B is not set\nC=2\nCONFIG_D\n  CONFIG_E = x \n");
    assert_eq!(vars.len(), 3);
    assert_eq!(vars.get(&"A".to_string()).unwrap(), "1");
    assert_eq!(vars.get(&"B".to_string()).unwrap(), "n");
    assert_eq!(vars.get(&"E ".to_string()).unwrap(), " x");
}

#[test]
fn variables_are_read_back() {
    let vars = load_config_vars("CONFIG_B=two words\nCONFIG_A=1=2\n");
    let text = vardict_text(&vars);
    assert_eq!(text, "A=1=2\nB=two words\n");
    let again = parse_vardict_text(&text);
    assert_eq!(again.len(), 2);
    assert_eq!(again.get(&"A".to_string()).unwrap(), "1=2");
    assert_eq!(again.get(&"B".to_string()).unwrap(), "two words");
    assert_eq!(vardict_text(&OrdMap::new()), "\n");
}

#[test]
fn a_changed_configuration_is_noticed() {
    let hash = simple_hash("CONFIG_A=1\n");
    assert_eq!(hash.len(), 16);
    assert!(hash.chars().all(|c| c.is_ascii_hexdigit()));
    assert_eq!(hash, simple_hash("CONFIG_A=1\n"));
    assert_ne!(hash, simple_hash("CONFIG_A=2\n"));

    let mut db = TupDb::create_in_memory();
    let first = note_config(&mut db, "CONFIG_A=1\n");
    assert!(first.changed && !first.announced);
    assert_eq!(db.config_get_string("config_hash", ""), hash);
    assert!(!note_config(&mut db, "CONFIG_A=1\n").changed);
    let other = note_config(&mut db, "CONFIG_A=2\n");
    assert!(other.changed && other.announced);
}

#[test]
fn a_hash_is_that_of_the_text() {
    for s in ["", "CONFIG_A=1\n", "t\u{fc}p"] {
        let mut hasher = std::collections::hash_map::DefaultHasher::new();
        s.hash(&mut hasher);
        assert_eq!(simple_hash(s), format!("{:016x}", hasher.finish()));
    }
}

#[test]
fn the_configuration_is_stored() {
    let mut db = TupDb::create_in_memory();
    let mut cache = EntryCache::new();
    sync_config_vars(&mut db, &mut cache, &load_config_vars("CONFIG_A=1\nCONFIG_B=2\n")).unwrap();
    let dir = db.node_select(DOT_DT, "tup.config").unwrap().id;
    let a = db.node_select(dir, "A").unwrap();
    assert_eq!(a.node_type, NodeType::Var);
    assert_eq!(db.var_get(a.id), Some("1".to_string()));
    let b = db.node_select(dir, "B").unwrap().id;

    sync_config_vars(&mut db, &mut cache, &load_config_vars("CONFIG_A=3\nCONFIG_C=4\n")).unwrap();
    assert_eq!(db.var_get(a.id), Some("3".to_string()));
    assert!(db.node_select(dir, "B").is_none());
    let c = db.node_select(dir, "C").unwrap().id;
    assert_eq!(c, b, "the identifier of the variable that went is free");
    assert_eq!(db.var_get(c), Some("4".to_string()));
    assert_eq!(db.node_select_dir(dir).len(), 2);
}

#[test]
fn a_tupfile_knows_the_configuration() {
    let mut reader =
        TupfileReader::parse("A = @(CC)\nB = $(CONFIG_CC)\n", "Tupfile").unwrap();
    apply_config(&mut reader, &load_config_vars("CONFIG_CC=clang\n"));
    reader.evaluate().unwrap();
    assert_eq!(reader.vars().get("A"), Some("clang"));
    assert_eq!(reader.vars().get("B"), Some("clang"));
}

// ------------------------------------------------ storing, running, finishing

fn store(db: &mut TupDb, content: &str, there: &[&str]) -> Result<Vec<String>, BuildError> {
    let mut cache = EntryCache::new();
    let rules = rules_of(content);
    store_dir_rules(db, &mut cache, DOT_DT, &rules, "/p", &listed(there), &present(there))
        .map(|s| s.stale)
}

fn project() -> TupDb {
    let mut db = TupDb::create_in_memory();
    db.node_insert(DOT_DT, "a.c", NodeType::File, 5, 0, -1, None, None).unwrap();
    store(
        &mut db,
        ": a.c |> cc %f -o %o |> a.o\n: a.o |> ld %f -o %o |> app\n: |> date > %o |> now\n",
        &["a.c"],
    )
    .unwrap();
    db
}

#[test]
fn rules_are_stored_as_commands() {
    let mut db = project();
    assert_eq!(get_modified_commands(&db).len(), 3);
    assert_eq!(db.node_select(DOT_DT, "app").unwrap().node_type, NodeType::Generated);
    let stale = store(&mut db, ": a.c |> cc %f -o %o |> b.o\n", &["a.c"]).unwrap();
    assert!(stale.contains(&"a.o".to_string()));
    assert!(stale.contains(&"app".to_string()));
    assert!(matches!(store(&mut db, ": z.c |> cc |> x\n", &[]), Err(BuildError::Rules(_))));
}

#[test]
fn a_rule_keeps_its_parts_when_it_is_stored() {
    let rules = rules_of(": a.c | b.h |> ^t CC^ cc %f |> a.o | a.d\n");
    let stored = rules_to_store(&rules);
    assert_eq!(stored.len(), 1);
    assert_eq!(stored[0].command, "cc %f");
    assert_eq!(stored[0].display, Some("CC".to_string()));
    assert_eq!(stored[0].flags, Some("t".to_string()));
    assert_eq!(stored[0].inputs, vec!["a.c"]);
    assert_eq!(stored[0].order_only_inputs, vec!["b.h"]);
    assert_eq!(stored[0].outputs, vec!["a.o"]);
    assert_eq!(stored[0].extra_outputs, vec!["a.d"]);
}

#[test]
fn users_of_outputs_run() {
    let mut db = project();
    let cc = db.node_select(DOT_DT, "cc a.c -o a.o").unwrap().id;
    let ld = db.node_select(DOT_DT, "ld a.o -o app").unwrap().id;
    let date = db.node_select(DOT_DT, "date > now").unwrap().id;
    db.flags_clear_all();
    db.flag_add(cc, TupFlags::Modify);
    spread_modified(&mut db);
    assert_eq!(get_modified_commands(&db), vec![cc, ld]);
    assert!(!db.flag_check(date, TupFlags::Modify));
    spread_modified(&mut db);
    assert_eq!(get_modified_commands(&db), vec![cc, ld]);
}

#[test]
fn commands_come_with_their_files() {
    let db = project();
    let cmds = commands_to_run(&db);
    assert_eq!(cmds.len(), 3);
    assert_eq!(cmds[0].command, "cc a.c -o a.o");
    assert_eq!(cmds[0].inputs, vec!["a.c"]);
    assert_eq!(cmds[0].outputs, vec!["a.o"]);
    assert_eq!(cmds[1].inputs, vec!["a.o"]);
    let rule = run_rule(&cmds[1]);
    assert_eq!(rule.command.command, "ld a.o -o app");
    assert!(rule.had_inputs);
    assert!(!run_rule(&cmds[2]).had_inputs);
}

#[test]
fn nothing_is_left_to_do_after_a_build() {
    let mut db = project();
    let done: Vec<Finished> = commands_to_run(&db)
        .iter()
        .map(|c| Finished {
            cmd_id: c.cmd_id,
            dir_id: c.dir_id,
            outputs: c
                .outputs
                .iter()
                .map(|o| OutputState {
                    name: o.clone(),
                    mtime: if o == "now" { None } else { Some((7, 8)) },
                })
                .collect(),
        })
        .collect();
    let missing = finish_commands(&mut db, &done, (9, 0)).unwrap();
    assert_eq!(missing, vec!["now"]);
    assert!(db.flags_empty());
    assert_eq!(db.node_select(DOT_DT, "a.o").unwrap().mtime, 7);
    assert!(commands_to_run(&db).is_empty());
}

#[test]
fn directories_without_a_tupfile_lose_their_commands() {
    let mut db = TupDb::create_in_memory();
    let mut cache = EntryCache::new();
    let sub = db.node_insert(DOT_DT, "sub", NodeType::Dir, -1, 0, -1, None, None).unwrap();
    let rules = rules_of(": |> date > %o |> out\n");
    let none = OrdMap::new();
    store_dir_rules(&mut db, &mut cache, sub, &rules, "/p/sub", &listed(&[]), &none).unwrap();
    store_dir_rules(&mut db, &mut cache, DOT_DT, &rules, "/p", &listed(&[]), &none).unwrap();
    let dirs = dirs_to_check(&db, "/p");
    assert!(dirs.contains(&(DOT_DT, "/p".to_string())));
    assert!(dirs.contains(&(sub, "/p/sub".to_string())));
    let gone = clean_unparsed_dirs(&mut db, &mut cache, "/p", &["/p".to_string()]).unwrap();
    assert_eq!(gone, vec!["/p/sub/out"]);
    assert_eq!(get_modified_commands(&db).len(), 1);
    assert!(clean_unparsed_dirs(&mut db, &mut cache, "/p", &["/p".to_string()]).unwrap().is_empty());
    let deep = db.node_insert(sub, "deep", NodeType::Dir, -1, 0, -1, None, None).unwrap();
    store_dir_rules(&mut db, &mut cache, deep, &rules, "/p/sub/deep", &listed(&[]), &none).unwrap();
    assert_eq!(dirs_to_check(&db, "/p").len(), dirs.len());
    assert!(clean_unparsed_dirs(&mut db, &mut cache, "/p", &["/p".to_string()]).unwrap().is_empty());
}

#[test]
fn how_many_commands_run_at_once() {
    assert_eq!(num_jobs(Some(2), Some("num_jobs=9\n"), 4), 2);
    assert_eq!(num_jobs(None, Some("[updater]\n num_jobs= 9 \n"), 4), 9);
    assert_eq!(num_jobs(None, Some("num_jobs=0\nnum_jobs=x\nnum_jobs=3\n"), 4), 3);
    assert_eq!(num_jobs(None, Some(""), 4), 4);
    assert_eq!(num_jobs(None, None, 4), 4);
}

#[test]
fn ignored_files() {
    let outputs = vec!["b.o".to_string(), "a.o".to_string(), "b.o".to_string()];
    assert_eq!(gitignore_text(&outputs, false, true), ".gitignore\na.o\nb.o\n");
    assert_eq!(gitignore_text(&[], true, false), ".gitignore\n.tup\n");
    assert_eq!(gitignore_text(&[], true, true), ".gitignore\n.tup\n/.gitignore\n");
}

#[test]
fn a_failed_update_changes_nothing() {
    let mut db = TupDb::create_in_memory();
    let mut cache = EntryCache::new();
    let rules = rules_of(": |> date > %o |> now\n");
    let none = OrdMap::new();
    store_dir_rules(&mut db, &mut cache, DOT_DT, &rules, "/p", &listed(&[]), &none).unwrap();
    let cmds = commands_to_run(&db);
    let done = vec![Finished { cmd_id: cmds[0].cmd_id, dir_id: DOT_DT, outputs: vec![] }];
    assert!(finish_update(&mut db, &done, 1, (9, 0)).unwrap().is_empty());
    assert_eq!(commands_to_run(&db).len(), 1);
    finish_update(&mut db, &done, 0, (9, 0)).unwrap();
    assert!(commands_to_run(&db).is_empty());
    assert!(db.flags_empty());
}

#[test]
fn commands_wait_for_what_they_use() {
    let rules = rules_of(
        ": a.o b.o |> ld |> app\n: |> cc a |> a.o\n: |> cc b |> b.o\n: | app |> strip |> small\n",
    );
    let id = |n: i64| TupId::new(n);
    let mut run = Run::new(&rules);
    assert_eq!(run.next(false, 1), vec![id(2)]);
    assert_eq!(run.next(false, 0), vec![id(2)]);
    assert_eq!(run.next(false, 4), vec![id(2), id(3)]);
    run.note(id(2), true);
    assert_eq!(run.next(false, 4), vec![id(3)]);
    run.note(id(3), true);
    assert_eq!(run.next(false, 4), vec![id(1)]);
    run.note(id(1), true);
    assert_eq!(run.next(false, 4), vec![id(4)]);
    run.note(id(4), true);
    assert!(run.next(true, 4).is_empty());
    assert_eq!((run.started.len(), run.failed.len()), (4, 0));
}

#[test]
fn a_failure_stops_the_others_or_not() {
    let rules = rules_of(": |> one |> x\n: |> two |> y\n: x |> three |> z\n");
    let id = |n: i64| TupId::new(n);
    let mut run = Run::new(&rules);
    run.note(id(1), false);
    assert!(run.next(false, 2).is_empty());
    assert_eq!(run.next(true, 2), vec![id(2)]);
    run.note(id(2), true);
    assert!(run.next(true, 2).is_empty());
    assert_eq!(run.failed, vec![id(1)]);
}
