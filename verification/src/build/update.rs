//! The steps of an update.
use vstd::prelude::*;

use crate::build::dirs::{dir_path_of, resolve_dir_path};
use crate::build::expand::{expand_rules_for_dir, expanded_rules, name_of_dir, Around};
use crate::build::spread::is_output;
use crate::db::commands::{
    get_modified_commands, store_rules, store_texts, stored_texts, RuleToStore, StoreText,
};
use crate::db::entry::EntryCache;
use crate::db::errors::{DbError, DbErrorText};
use crate::db::links::{input_ids, nodes_in};
use crate::db::nodes::{world, World};
use crate::db::output_tracking::{track_outputs, OutputState};
use crate::db::rows::{row_texts, rows_at, NodeRow, RowText};
use crate::db::tables::{dot, dot_dt, TablesText, TupDb, TupFlags};
use crate::ids::{ascending, lists};
use crate::numbers::{int_between, parse_usize};
use crate::ordmap::{pair_views, OrdMap};

use crate::parser::glob::Listings;
use crate::parser::reader::{ReaderText, ScopeText, TupfileReader};
use crate::parser::rule::{
    copy_opt, opt_text, rule_texts, CommandText, Rule, RuleCommand, RuleText,
};
use crate::parser::vardb::VarTables;
use crate::paths::{path_join, same_path, str_path_join, str_same_path};
use crate::sorting::{sort, sort_strings};
use crate::text::{
    concat2, copy_str, copy_strings, join, join_strings, lemma_texts_push, lines, same, str_lines,
    str_strip_prefix, str_trim, strip_prefix, texts, trim,
};
use crate::types::{NodeType, TupId};

verus! {

// ------------------------------------------------ the configuration in a Tupfile

impl VarTables {
    /// The variables of the configuration, under their names for `@(NAME)`, and
    /// with `CONFIG_` before them for `$(CONFIG_NAME)`.
    pub open spec fn with_config(self, pairs: Seq<(Seq<char>, Seq<char>)>) -> VarTables
        decreases pairs.len(),
    {
        if pairs.len() == 0 {
            self
        } else {
            let (name, value) = pairs[0];
            self.set_config(name, value).set("CONFIG_"@ + name, value).with_config(
                pairs.drop_first(),
            )
        }
    }
}

/// Makes the configuration known to a Tupfile.
pub fn apply_config(reader: &mut TupfileReader, config: &OrdMap<String, String>)
    ensures
        final(reader)@ == (ReaderText {
            scope: ScopeText {
                vars: old(reader)@.scope.vars.with_config(pair_views(config.pairs())),
                ..old(reader)@.scope
            },
            ..old(reader)@
        }),
{
    let ghost pairs = pair_views(config.pairs());
    let n = config.len();
    let mut i: usize = 0;
    assert(pairs.skip(0) =~= pairs);
    while i < n
        invariant
            i <= n,
            n == config.pairs().len(),
            pairs == pair_views(config.pairs()),
            reader@ == (ReaderText {
                scope: ScopeText { vars: reader@.scope.vars, ..old(reader)@.scope },
                ..old(reader)@
            }),
            old(reader)@.scope.vars.with_config(pairs) == reader@.scope.vars.with_config(
                pairs.skip(i as int),
            ),
        decreases n - i,
    {
        let (name, value) = config.at(i);
        proof {
            assert(pairs.skip(i as int)[0] == (name@, value@));
            assert(pairs.skip(i as int).drop_first() =~= pairs.skip(i + 1));
        }
        reader.set_config(name.as_str(), value.as_str());
        let full = concat2("CONFIG_", name.as_str());
        reader.vars_mut().set(full.as_str(), value.as_str());
        i += 1;
    }
    assert(pairs.skip(i as int) =~= Seq::empty());
}

// ------------------------------------------------ storing the rules of a directory

/// A rule as it is stored.
pub open spec fn to_store(r: RuleText) -> StoreText {
    StoreText {
        command: r.command.command,
        inputs: r.inputs,
        order_only_inputs: r.order_only_inputs,
        outputs: r.outputs,
        extra_outputs: r.extra_outputs,
        display: r.command.display,
        flags: r.command.flags,
    }
}

pub open spec fn all_to_store(rules: Seq<RuleText>) -> Seq<StoreText> {
    Seq::new(rules.len(), |i: int| to_store(rules[i]))
}

/// The rules as they are stored.
pub fn rules_to_store(rules: &[Rule]) -> (r: Vec<RuleToStore>)
    ensures
        store_texts(r@) == all_to_store(rule_texts(rules@)),
{
    let mut out: Vec<RuleToStore> = Vec::new();
    let mut i: usize = 0;
    while i < rules.len()
        invariant
            i <= rules.len(),
            out@.len() == i,
            forall|j: int| 0 <= j < i ==> (#[trigger] out@[j])@ == to_store(rules@[j]@),
        decreases rules.len() - i,
    {
        let rule = &rules[i];
        let stored = RuleToStore {
            command: copy_str(rule.command.command.as_str()),
            inputs: copy_strings(rule.inputs.as_slice()),
            order_only_inputs: copy_strings(rule.order_only_inputs.as_slice()),
            outputs: copy_strings(rule.outputs.as_slice()),
            extra_outputs: copy_strings(rule.extra_outputs.as_slice()),
            display: copy_opt(&rule.command.display),
            flags: copy_opt(&rule.command.flags),
        };
        assert(stored@ =~= to_store(rule@));
        out.push(stored);
        i += 1;
    }
    assert(store_texts(out@) =~= all_to_store(rule_texts(rules@)));
    out
}

/// The outputs of rules, in order.
pub open spec fn all_outputs(rules: Seq<RuleText>) -> Seq<Seq<char>>
    decreases rules.len(),
{
    if rules.len() == 0 {
        Seq::empty()
    } else {
        all_outputs(rules.drop_last()) + rules.last().outputs
    }
}

fn collect_outputs(rules: &Vec<Rule>) -> (r: Vec<String>)
    ensures
        texts(r@) == all_outputs(rule_texts(rules@)),
{
    let ghost all = rule_texts(rules@);
    let mut out: Vec<String> = Vec::new();
    let mut i: usize = 0;
    assert(texts(out@) =~= Seq::empty());
    while i < rules.len()
        invariant
            i <= rules.len(),
            all == rule_texts(rules@),
            texts(out@) == all_outputs(all.take(i as int)),
        decreases rules.len() - i,
    {
        proof {
            assert(all.take(i + 1).drop_last() =~= all.take(i as int));
            assert(all.take(i + 1).last() == rules@[i as int]@);
        }
        let ghost before = texts(out@);
        let mut more = copy_strings(rules[i].outputs.as_slice());
        let ghost tail = texts(more@);
        out.append(&mut more);
        assert(texts(out@) =~= before + tail);
        i += 1;
    }
    assert(all.take(all.len() as int) =~= all);
    out
}

/// Why an update stopped.
#[derive(Debug)]
pub enum BuildError {
    /// The rules of a Tupfile are not in order.
    Rules(String),
    /// The database refused something.
    Db(DbError),
}

/// What came of storing the rules of a directory.
#[derive(Debug)]
pub struct DirStored {
    /// The number of commands.
    pub commands: usize,
    /// Outputs that no command has any more, to be removed.
    pub stale: Vec<String>,
    /// All outputs of the rules.
    pub outputs: Vec<String>,
}

/// Expands the rules of a directory and stores them.
pub fn store_dir_rules(
    db: &mut TupDb,
    cache: &mut EntryCache,
    dir_id: TupId,
    rules: &[Rule],
    work_dir: &str,
    listings: &Listings,
    present: &OrdMap<String, ()>,
) -> (r: Result<DirStored, BuildError>)
    ensures
        match expanded_rules(
            rule_texts(rules@),
            (Around {
                dir_name: name_of_dir(work_dir@),
                listings: listings@,
                present: present@.dom(),
            }),
        ) {
            Err(m) => {
                &&& r matches Err(BuildError::Rules(e)) && e@ == m
                &&& final(db)@ == old(db)@
                &&& final(cache)@ == old(cache)@
            },
            Ok(expanded) => {
                let (w, done) = world(*old(db), *old(cache)).store_rules(
                    dir_id,
                    all_to_store(expanded),
                );
                &&& final(db)@ == old(db)@.with(w.tables)
                &&& final(cache)@ == w.cache
                &&& match (r, done) {
                    (Ok(s), Ok((commands, stale))) => {
                        &&& s.commands == commands.len()
                        &&& texts(s.stale@) == stale
                        &&& texts(s.outputs@) == all_outputs(expanded)
                    },
                    (Err(BuildError::Db(e)), Err(t)) => e@ == t,
                    _ => false,
                }
            },
        },
{
    let expanded = match expand_rules_for_dir(rules, work_dir, listings, present) {
        Ok(v) => v,
        Err(m) => {
            return Err(BuildError::Rules(m));
        },
    };
    let to_store = rules_to_store(expanded.as_slice());
    match store_rules(db, cache, dir_id, to_store.as_slice()) {
        Ok(s) => {
            assert(stored_texts(s.commands@).len() == s.commands@.len());
            let outputs = collect_outputs(&expanded);
            Ok(DirStored { commands: s.commands.len(), stale: s.stale_outputs, outputs })
        },
        Err(e) => Err(BuildError::Db(e)),
    }
}

// ------------------------------------------------ directories without a Tupfile

/// The top directory, and the directories right in it that have a path. Those
/// further down are left out.
pub open spec fn dirs_of_rows(
    t: TablesText,
    rows: Seq<RowText>,
    root: Seq<char>,
) -> Seq<(TupId, Seq<char>)>
    decreases rows.len(),
{
    if rows.len() == 0 {
        seq![(dot(), root)]
    } else {
        let before = dirs_of_rows(t, rows.drop_last(), root);
        let row = rows.last();
        match dir_path_of(t, row.id, root) {
            Ok(p) => if row.node_type == NodeType::Dir {
                before.push((row.id, p))
            } else {
                before
            },
            Err(_) => before,
        }
    }
}

pub open spec fn dir_pairs(v: Seq<(TupId, String)>) -> Seq<(TupId, Seq<char>)> {
    Seq::new(v.len(), |i: int| (v[i].0, v[i].1@))
}

/// The directories whose commands may have to go, with their paths: the top
/// directory and the directories right in it. Directories further down are left
/// out, though they can hold commands.
pub fn dirs_to_check(db: &TupDb, root: &str) -> (r: Vec<(TupId, String)>)
    ensures
        dir_pairs(r@) == dirs_of_rows(db@.tables, db@.tables.rows_in(dot()), root@),
{
    let rows = db.node_select_dir(dot_dt());
    let ghost all = row_texts(rows@);
    let mut out: Vec<(TupId, String)> = Vec::new();
    out.push((dot_dt(), copy_str(root)));
    assert(dir_pairs(out@) =~= seq![(dot(), root@)]);
    let mut i: usize = 0;
    while i < rows.len()
        invariant
            i <= rows.len(),
            all == row_texts(rows@),
            dir_pairs(out@) == dirs_of_rows(db@.tables, all.take(i as int), root@),
        decreases rows.len() - i,
    {
        proof {
            assert(all.take(i + 1).drop_last() =~= all.take(i as int));
            assert(all.take(i + 1).last() == rows@[i as int]@);
        }
        if rows[i].node_type == NodeType::Dir {
            if let Ok(path) = resolve_dir_path(db, rows[i].id, root) {
                let ghost before = out@;
                let ghost p = path@;
                out.push((rows[i].id, path));
                assert(dir_pairs(out@) =~= dir_pairs(before).push((rows@[i as int].id, p)));
            }
        }
        i += 1;
    }
    assert(all.take(all.len() as int) =~= all);
    out
}

/// Whether a path is among others.
pub open spec fn has_path(paths: Seq<Seq<char>>, path: Seq<char>) -> bool {
    exists|i: int| 0 <= i < paths.len() && same_path(#[trigger] paths[i], path)
}

/// Whether a directory holds a command.
pub open spec fn has_commands(t: TablesText, dir: TupId) -> bool {
    exists|id: TupId| #[trigger]
        t.nodes.dom().contains(id) && t.nodes[id].dir == dir && t.nodes[id].node_type
            == NodeType::Cmd
}

fn path_among(paths: &[String], path: &str) -> (r: bool)
    ensures
        r == has_path(texts(paths@), path@),
{
    let ghost all = texts(paths@);
    let mut i: usize = 0;
    while i < paths.len()
        invariant
            i <= paths.len(),
            all == texts(paths@),
            forall|j: int| 0 <= j < i ==> !same_path(#[trigger] all[j], path@),
        decreases paths.len() - i,
    {
        assert(all[i as int] == paths@[i as int]@);
        if str_same_path(paths[i].as_str(), path) {
            return true;
        }
        i += 1;
    }
    false
}

fn holds_commands(db: &TupDb, dir: TupId) -> (r: bool)
    ensures
        r == has_commands(db@.tables, dir),
{
    let rows = db.node_select_dir(dir);
    let ghost all = row_texts(rows@);
    let ghost t = db@.tables;
    let ghost ids = ascending(nodes_in(t.nodes, dir));
    let mut i: usize = 0;
    proof {
        assert(all.len() == rows@.len());
        assert(rows_at(t.nodes, ids).len() == ids.len());
    }
    while i < rows.len()
        invariant
            i <= rows.len(),
            all == row_texts(rows@),
            t == db@.tables,
            ids == ascending(nodes_in(t.nodes, dir)),
            lists(ids, nodes_in(t.nodes, dir)),
            all == rows_at(t.nodes, ids),
            all.len() == rows@.len(),
            ids.len() == rows@.len(),
            forall|j: int| 0 <= j < i ==> (#[trigger] all[j]).node_type != NodeType::Cmd,
        decreases rows.len() - i,
    {
        assert(all[i as int] == rows@[i as int]@);
        if rows[i].node_type == NodeType::Cmd {
            proof {
                assert(ids.contains(ids[i as int]));
                assert(t.nodes.dom().contains(ids[i as int]));
                assert(all[i as int] == t.nodes[ids[i as int]]);
            }
            return true;
        }
        i += 1;
    }
    proof {
        if has_commands(t, dir) {
            let id = choose|id: TupId| #[trigger]
                t.nodes.dom().contains(id) && t.nodes[id].dir == dir && t.nodes[id].node_type
                    == NodeType::Cmd;
            assert(nodes_in(t.nodes, dir).contains(id));
            assert(ids.contains(id));
            let k = choose|k: int| 0 <= k < ids.len() && ids[k] == id;
            assert(all[k] == t.nodes[id]);
        }
    }
    false
}

/// Files of a directory, by their paths.
pub open spec fn paths_in(dir: Seq<char>, names: Seq<Seq<char>>) -> Seq<Seq<char>> {
    Seq::new(names.len(), |i: int| path_join(dir, names[i]))
}

impl World {
    /// Commands in directories that were not parsed are removed, with their
    /// outputs. Gives the files that have to go.
    pub open spec fn clean(
        self,
        dirs: Seq<(TupId, Seq<char>)>,
        parsed: Seq<Seq<char>>,
        gone: Seq<Seq<char>>,
    ) -> (World, Result<Seq<Seq<char>>, DbErrorText>)
        decreases dirs.len(),
    {
        if dirs.len() == 0 {
            (self, Ok(gone))
        } else {
            let (dir, path) = dirs[0];
            if has_path(parsed, path) || !has_commands(self.tables, dir) {
                self.clean(dirs.drop_first(), parsed, gone)
            } else {
                let (w, done) = self.store_rules(dir, Seq::empty());
                match done {
                    Err(e) => (w, Err(e)),
                    Ok((_, stale)) => w.clean(
                        dirs.drop_first(),
                        parsed,
                        gone + paths_in(path, stale),
                    ),
                }
            }
        }
    }
}

/// Removes the commands of directories that hold some and were not parsed, and
/// gives the paths of the outputs that have to go. This looks at the top directory
/// and at the directories right in it. A directory further down keeps its commands.
pub fn clean_unparsed_dirs(
    db: &mut TupDb,
    cache: &mut EntryCache,
    root: &str,
    parsed: &[String],
) -> (r: Result<Vec<String>, DbError>)
    ensures
        ({
            let t = old(db)@.tables;
            let (w, done) = world(*old(db), *old(cache)).clean(
                dirs_of_rows(t, t.rows_in(dot()), root@),
                texts(parsed@),
                Seq::empty(),
            );
            &&& final(db)@ == old(db)@.with(w.tables)
            &&& final(cache)@ == w.cache
            &&& match (r, done) {
                (Ok(v), Ok(gone)) => texts(v@) == gone,
                (Err(e), Err(f)) => e@ == f,
                _ => false,
            }
        }),
{
    let dirs = dirs_to_check(db, root);
    let ghost all = dir_pairs(dirs@);
    let ghost names = texts(parsed@);
    let ghost start = world(*db, *cache);
    let mut out: Vec<String> = Vec::new();
    let mut i: usize = 0;
    proof {
        assert(all.skip(0) =~= all);
        assert(texts(out@) =~= Seq::empty());
    }
    while i < dirs.len()
        invariant
            i <= dirs.len(),
            all == dir_pairs(dirs@),
            names == texts(parsed@),
            start == world(*old(db), *old(cache)),
            all == dirs_of_rows(
                old(db)@.tables,
                old(db)@.tables.rows_in(dot()),
                root@,
            ),
            db@ == old(db)@.with(db@.tables),
            start.clean(all, names, Seq::empty()) == world(*db, *cache).clean(
                all.skip(i as int),
                names,
                texts(out@),
            ),
        decreases dirs.len() - i,
    {
        let dir = dirs[i].0;
        let path = dirs[i].1.as_str();
        proof {
            assert(all.skip(i as int)[0] == (dir, path@));
            assert(all.skip(i as int).drop_first() =~= all.skip(i + 1));
        }
        if !path_among(parsed, path) && holds_commands(db, dir) {
            let none: Vec<RuleToStore> = Vec::new();
            assert(store_texts(none@) =~= Seq::empty());
            match store_rules(db, cache, dir, none.as_slice()) {
                Err(e) => {
                    return Err(e);
                },
                Ok(s) => {
                    add_paths(&mut out, path, &s.stale_outputs);
                },
            }
        }
        i += 1;
    }
    assert(all.skip(i as int) =~= Seq::empty());
    Ok(out)
}

fn add_paths(out: &mut Vec<String>, dir: &str, names: &Vec<String>)
    ensures
        texts(final(out)@) == texts(old(out)@) + paths_in(dir@, texts(names@)),
{
    let ghost before = texts(out@);
    let ghost all = paths_in(dir@, texts(names@));
    let mut i: usize = 0;
    assert(before + all.take(0) =~= before);
    while i < names.len()
        invariant
            i <= names.len(),
            all == paths_in(dir@, texts(names@)),
            texts(out@) == before + all.take(i as int),
        decreases names.len() - i,
    {
        let p = str_path_join(dir, names[i].as_str());
        let ghost had = out@;
        let ghost text = p@;
        out.push(p);
        proof {
            assert(all[i as int] == text);
            assert(texts(out@) =~= texts(had).push(text));
            assert(before + all.take(i + 1) =~= (before + all.take(i as int)).push(text));
        }
        i += 1;
    }
    assert(all.take(all.len() as int) =~= all);
}

// ------------------------------------------------ commands to run

/// A command that has to run.
#[derive(Debug)]
pub struct CmdToRun {
    pub cmd_id: TupId,
    pub dir_id: TupId,
    pub command: String,
    pub display: Option<String>,
    /// Files that the command depends on.
    pub inputs: Vec<String>,
    pub outputs: Vec<String>,
}

/// A command that has to run, as texts.
#[verifier::ext_equal]
pub struct RunText {
    pub cmd_id: TupId,
    pub dir_id: TupId,
    pub command: Seq<char>,
    pub display: Option<Seq<char>>,
    pub inputs: Seq<Seq<char>>,
    pub outputs: Seq<Seq<char>>,
}

impl View for CmdToRun {
    type V = RunText;

    open spec fn view(&self) -> RunText {
        RunText {
            cmd_id: self.cmd_id,
            dir_id: self.dir_id,
            command: self.command@,
            display: opt_text(self.display),
            inputs: texts(self.inputs@),
            outputs: texts(self.outputs@),
        }
    }
}

pub open spec fn run_texts(v: Seq<CmdToRun>) -> Seq<RunText> {
    Seq::new(v.len(), |i: int| v[i]@)
}

/// The names of the outputs of a command among rows.
pub open spec fn output_names(rows: Seq<RowText>, cmd: TupId) -> Seq<Seq<char>>
    decreases rows.len(),
{
    if rows.len() == 0 {
        Seq::empty()
    } else {
        let before = output_names(rows.drop_last(), cmd);
        if is_output(rows.last(), cmd) {
            before.push(rows.last().name)
        } else {
            before
        }
    }
}

/// The names of those nodes that are files.
pub open spec fn file_names(nodes: Map<TupId, RowText>, ids: Seq<TupId>) -> Seq<Seq<char>>
    decreases ids.len(),
{
    if ids.len() == 0 {
        Seq::empty()
    } else {
        let before = file_names(nodes, ids.drop_last());
        let id = ids.last();
        if nodes.dom().contains(id) && (nodes[id].node_type == NodeType::Generated
            || nodes[id].node_type == NodeType::File) {
            before.push(nodes[id].name)
        } else {
            before
        }
    }
}

/// A command with its files.
pub open spec fn run_of(t: TablesText, cmd: TupId) -> RunText {
    let row = t.nodes[cmd];
    RunText {
        cmd_id: cmd,
        dir_id: row.dir,
        command: row.name,
        display: row.display,
        inputs: file_names(t.nodes, input_ids(t, cmd)),
        outputs: output_names(t.rows_in(row.dir), cmd),
    }
}

/// The commands that are marked as modified, with their files.
pub open spec fn runs_of(t: TablesText) -> Seq<RunText> {
    let cmds = ascending(t.known_of((t.flags)(TupFlags::Modify), NodeType::Cmd));
    Seq::new(cmds.len(), |i: int| run_of(t, cmds[i]))
}

fn names_of_outputs(rows: &Vec<NodeRow>, cmd: TupId) -> (r: Vec<String>)
    ensures
        texts(r@) == output_names(row_texts(rows@), cmd),
{
    let ghost all = row_texts(rows@);
    let mut out: Vec<String> = Vec::new();
    let mut i: usize = 0;
    assert(texts(out@) =~= Seq::empty());
    while i < rows.len()
        invariant
            i <= rows.len(),
            all == row_texts(rows@),
            texts(out@) == output_names(all.take(i as int), cmd),
        decreases rows.len() - i,
    {
        proof {
            assert(all.take(i + 1).drop_last() =~= all.take(i as int));
            assert(all.take(i + 1).last() == rows@[i as int]@);
        }
        if rows[i].node_type == NodeType::Generated && rows[i].srcid == cmd.raw() {
            proof {
                lemma_texts_push(out@, rows@[i as int].name);
            }
            out.push(rows[i].name.clone());
            assert(texts(out@) =~= output_names(all.take(i as int), cmd).push(
                rows@[i as int].name@,
            ));
        }
        i += 1;
    }
    assert(all.take(all.len() as int) =~= all);
    out
}

fn names_of_files(db: &TupDb, ids: &Vec<TupId>) -> (r: Vec<String>)
    ensures
        texts(r@) == file_names(db@.tables.nodes, ids@),
{
    let ghost nodes = db@.tables.nodes;
    let mut out: Vec<String> = Vec::new();
    let mut i: usize = 0;
    assert(texts(out@) =~= Seq::empty());
    while i < ids.len()
        invariant
            i <= ids.len(),
            nodes == db@.tables.nodes,
            texts(out@) == file_names(nodes, ids@.take(i as int)),
        decreases ids.len() - i,
    {
        proof {
            assert(ids@.take(i + 1).drop_last() =~= ids@.take(i as int));
            assert(ids@.take(i + 1).last() == ids@[i as int]);
        }
        if let Some(row) = db.node_select_by_id(ids[i]) {
            if row.node_type == NodeType::Generated || row.node_type == NodeType::File {
                let ghost before = out@;
                let ghost name = row.name@;
                out.push(row.name);
                assert(texts(out@) =~= texts(before).push(name));
            }
        }
        i += 1;
    }
    assert(ids@.take(ids@.len() as int) =~= ids@);
    out
}

/// The commands that are marked as modified, with their files.
pub fn commands_to_run(db: &TupDb) -> (r: Vec<CmdToRun>)
    ensures
        run_texts(r@) == runs_of(db@.tables),
{
    let cmds = get_modified_commands(db);
    let ghost t = db@.tables;
    let mut out: Vec<CmdToRun> = Vec::new();
    let mut i: usize = 0;
    while i < cmds.len()
        invariant
            i <= cmds.len(),
            t == db@.tables,
            lists(cmds@, t.known_of((t.flags)(TupFlags::Modify), NodeType::Cmd)),
            out@.len() == i,
            forall|j: int| 0 <= j < i ==> (#[trigger] out@[j])@ == run_of(t, cmds@[j]),
        decreases cmds.len() - i,
    {
        let cmd = cmds[i];
        assert(cmds@.contains(cmds@[i as int]));
        let row = db.row(cmd);
        let rows = db.node_select_dir(row.dir);
        let ids = db.get_input_ids(cmd);
        let run = CmdToRun {
            cmd_id: cmd,
            dir_id: row.dir,
            command: copy_str(row.name.as_str()),
            display: copy_opt(&row.display),
            inputs: names_of_files(db, &ids),
            outputs: names_of_outputs(&rows, cmd),
        };
        assert(run@ =~= run_of(t, cmd));
        out.push(run);
        i += 1;
    }
    assert(run_texts(out@) =~= runs_of(t));
    out
}

/// A command as a rule that can be executed.
pub fn run_rule(cmd: &CmdToRun) -> (r: Rule)
    ensures
        r@ == (RuleText {
            foreach: false,
            inputs: cmd@.inputs,
            order_only_inputs: Seq::empty(),
            command: CommandText {
                command: cmd@.command,
                display: cmd@.display,
                flags: None,
            },
            outputs: cmd@.outputs,
            extra_outputs: Seq::empty(),
            line_number: 0,
            had_inputs: cmd@.inputs.len() > 0,
            vars_snapshot: None,
            bin: None,
        }),
{
    let r = Rule {
        foreach: false,
        inputs: copy_strings(cmd.inputs.as_slice()),
        order_only_inputs: Vec::new(),
        command: RuleCommand {
            command: copy_str(cmd.command.as_str()),
            display: copy_opt(&cmd.display),
            flags: None,
        },
        outputs: copy_strings(cmd.outputs.as_slice()),
        extra_outputs: Vec::new(),
        line_number: 0,
        had_inputs: cmd.inputs.len() > 0,
        vars_snapshot: None,
        bin: None,
    };
    assert(r@.order_only_inputs =~= Seq::empty());
    assert(r@.extra_outputs =~= Seq::empty());
    r
}

/// The number of commands that may run at once which lines set: the first
/// `num_jobs=` with a number above zero.
pub open spec fn jobs_of_lines(ls: Seq<Seq<char>>) -> Option<int>
    decreases ls.len(),
{
    if ls.len() == 0 {
        None
    } else {
        match strip_prefix(trim(ls[0]), "num_jobs="@) {
            None => jobs_of_lines(ls.drop_first()),
            Some(v) => match int_between(trim(v), 0, usize::MAX as int) {
                Ok(n) => if n > 0 {
                    Some(n)
                } else {
                    jobs_of_lines(ls.drop_first())
                },
                Err(_) => jobs_of_lines(ls.drop_first()),
            },
        }
    }
}

/// The number of commands that may run at once: what was asked for, what the
/// options say, or one for each processor.
pub fn num_jobs(asked: Option<usize>, options: Option<&str>, cpus: usize) -> (r: usize)
    ensures
        r == match asked {
            Some(n) => n as int,
            None => match options {
                None => cpus as int,
                Some(text) => match jobs_of_lines(lines(text@)) {
                    Some(n) => n,
                    None => cpus as int,
                },
            },
        },
{
    if let Some(n) = asked {
        return n;
    }
    let text = match options {
        None => {
            return cpus;
        },
        Some(t) => t,
    };
    let ls = str_lines(text);
    let ghost all = texts(ls@);
    let mut i: usize = 0;
    assert(all.skip(0) =~= all);
    while i < ls.len()
        invariant
            i <= ls.len(),
            all == texts(ls@),
            jobs_of_lines(all) == jobs_of_lines(all.skip(i as int)),
            asked is None,
            options is Some,
            options->0@ == text@,
            all == lines(text@),
        decreases ls.len() - i,
    {
        proof {
            assert(all.skip(i as int)[0] == ls@[i as int]@);
            assert(all.skip(i as int).drop_first() =~= all.skip(i + 1));
        }
        if let Some(v) = str_strip_prefix(str_trim(ls[i].as_str()), "num_jobs=") {
            if let Ok(n) = parse_usize(str_trim(v)) {
                if n > 0 {
                    return n;
                }
            }
        }
        i += 1;
    }
    assert(all.skip(i as int) =~= Seq::empty());
    cpus
}

// ------------------------------------------------ after the commands ran

/// A command that ran, with its outputs as they are now.
#[derive(Debug)]
pub struct Finished {
    pub cmd_id: TupId,
    pub dir_id: TupId,
    pub outputs: Vec<OutputState>,
}

impl TablesText {
    /// A command that ran is not modified any more, and its outputs are known.
    pub open spec fn finish_one(self, cmd: Finished, now: (i64, i64)) -> (
        TablesText,
        Seq<Seq<char>>,
        Option<DbErrorText>,
    ) {
        if cmd.outputs@.len() == 0 {
            (self.unflag(cmd.cmd_id, TupFlags::Modify), Seq::empty(), None)
        } else {
            let found = self.track_all(cmd.cmd_id, cmd.dir_id, cmd.outputs@);
            match found.error {
                Some(e) => (found.tables, found.missing, Some(e)),
                None => (
                    found.tables.set_mtime(cmd.cmd_id, now.0, now.1).unflag(
                        cmd.cmd_id,
                        TupFlags::Modify,
                    ),
                    found.missing,
                    None,
                ),
            }
        }
    }

    pub open spec fn finish_all(
        self,
        cmds: Seq<Finished>,
        now: (i64, i64),
        missing: Seq<Seq<char>>,
    ) -> (TablesText, Result<Seq<Seq<char>>, DbErrorText>)
        decreases cmds.len(),
    {
        if cmds.len() == 0 {
            (self, Ok(missing))
        } else {
            let (t, lost, failed) = self.finish_one(cmds[0], now);
            match failed {
                Some(e) => (t, Err(e)),
                None => t.finish_all(cmds.drop_first(), now, missing + lost),
            }
        }
    }

    /// No node has a mark.
    pub open spec fn without_flags(self) -> TablesText {
        TablesText { flags: |f: TupFlags| Set::empty(), ..self }
    }
}

/// Notes that all commands ran: their outputs are known, and no mark is left.
/// Gives the outputs that no command wrote.
pub fn finish_commands(db: &mut TupDb, cmds: &[Finished], now: (i64, i64)) -> (r: Result<
    Vec<String>,
    DbError,
>)
    ensures
        ({
            let (t, done) = old(db)@.tables.finish_all(cmds@, now, Seq::empty());
            match (r, done) {
                (Ok(v), Ok(missing)) => {
                    &&& texts(v@) == missing
                    &&& final(db)@ == old(db)@.with(t.without_flags())
                },
                (Err(e), Err(f)) => e@ == f && final(db)@ == old(db)@.with(t),
                _ => false,
            }
        }),
{
    let ghost start = db@.tables;
    let mut out: Vec<String> = Vec::new();
    let mut i: usize = 0;
    proof {
        assert(cmds@.skip(0) =~= cmds@);
        assert(texts(out@) =~= Seq::empty());
    }
    while i < cmds.len()
        invariant
            i <= cmds.len(),
            start == old(db)@.tables,
            db@ == old(db)@.with(db@.tables),
            start.finish_all(cmds@, now, Seq::empty()) == db@.tables.finish_all(
                cmds@.skip(i as int),
                now,
                texts(out@),
            ),
        decreases cmds.len() - i,
    {
        proof {
            assert(cmds@.skip(i as int)[0] == cmds@[i as int]);
            assert(cmds@.skip(i as int).drop_first() =~= cmds@.skip(i + 1));
        }
        let cmd = &cmds[i];
        let ghost had = texts(out@);
        if cmd.outputs.len() > 0 {
            match track_outputs(db, cmd.cmd_id, cmd.dir_id, cmd.outputs.as_slice(), now) {
                Err(e) => {
                    return Err(e);
                },
                Ok(found) => {
                    let mut lost = found.missing;
                    let ghost tail = texts(lost@);
                    out.append(&mut lost);
                    assert(texts(out@) =~= had + tail);
                },
            }
        } else {
            assert(had + Seq::<Seq<char>>::empty() =~= had);
        }
        db.flag_remove(cmd.cmd_id, TupFlags::Modify);
        i += 1;
    }
    assert(cmds@.skip(i as int) =~= Seq::empty());
    db.flags_clear_all();
    assert(db@.tables =~= start.finish_all(cmds@, now, Seq::empty()).0.without_flags());
    Ok(out)
}

/// Notes what came of an update. Where a command failed nothing changes, so that
/// all commands run again; otherwise all that ran are noted.
pub fn finish_update(
    db: &mut TupDb,
    cmds: &[Finished],
    failed: usize,
    now: (i64, i64),
) -> (r: Result<Vec<String>, DbError>)
    ensures
        failed > 0 ==> r is Ok && r->Ok_0@.len() == 0 && final(db)@ == old(db)@,
        failed == 0 ==> ({
            let (t, done) = old(db)@.tables.finish_all(cmds@, now, Seq::empty());
            match (r, done) {
                (Ok(v), Ok(missing)) => {
                    &&& texts(v@) == missing
                    &&& final(db)@ == old(db)@.with(t.without_flags())
                },
                (Err(e), Err(f)) => e@ == f && final(db)@ == old(db)@.with(t),
                _ => false,
            }
        }),
{
    if failed > 0 {
        return Ok(Vec::new());
    }
    finish_commands(db, cmds, now)
}

// ------------------------------------------------ files to ignore

/// Texts of which none is the same as the one before it.
pub open spec fn without_neighbours(s: Seq<Seq<char>>) -> Seq<Seq<char>>
    decreases s.len(),
{
    if s.len() == 0 {
        Seq::empty()
    } else {
        let before = without_neighbours(s.drop_last());
        if s.len() > 1 && s[s.len() - 2] == s.last() {
            before
        } else {
            before.push(s.last())
        }
    }
}

/// The files that a directory ignores: the outputs, the list itself, and at the
/// top what belongs to the tools.
pub open spec fn ignored(outputs: Seq<Seq<char>>, is_root: bool, has_git: bool) -> Seq<
    Seq<char>,
> {
    let own = outputs.push(".gitignore"@);
    let all = if is_root && has_git {
        own.push(".tup"@).push("/.gitignore"@)
    } else if is_root {
        own.push(".tup"@)
    } else {
        own
    };
    without_neighbours(sort(all))
}

/// The text of the list of files that a directory ignores.
pub fn gitignore_text(outputs: &[String], is_root: bool, has_git: bool) -> (r: String)
    ensures
        r@ == join(ignored(texts(outputs@), is_root, has_git), "\n"@) + "\n"@,
{
    let mut all = copy_strings(outputs);
    let ghost start = texts(outputs@);
    all.push(copy_str(".gitignore"));
    assert(texts(all@) =~= start.push(".gitignore"@));
    if is_root {
        all.push(copy_str(".tup"));
        assert(texts(all@) =~= start.push(".gitignore"@).push(".tup"@));
        if has_git {
            all.push(copy_str("/.gitignore"));
            assert(texts(all@) =~= start.push(".gitignore"@).push(".tup"@).push("/.gitignore"@));
        }
    }
    let sorted = sort_strings(all);
    let ghost s = texts(sorted@);
    let mut out: Vec<String> = Vec::new();
    let mut i: usize = 0;
    assert(texts(out@) =~= Seq::empty());
    while i < sorted.len()
        invariant
            i <= sorted.len(),
            s == texts(sorted@),
            texts(out@) == without_neighbours(s.take(i as int)),
        decreases sorted.len() - i,
    {
        proof {
            assert(s.take(i + 1).drop_last() =~= s.take(i as int));
            assert(s.take(i + 1).last() == sorted@[i as int]@);
            if i > 0 {
                assert(s.take(i + 1)[i - 1] == sorted@[i - 1]@);
            }
        }
        if !(i > 0 && same(sorted[i - 1].as_str(), sorted[i].as_str())) {
            let ghost before = out@;
            out.push(sorted[i].clone());
            assert(texts(out@) =~= texts(before).push(sorted@[i as int]@));
        }
        i += 1;
    }
    assert(s.take(s.len() as int) =~= s);
    let body = join_strings(out.as_slice(), "\n");
    concat2(body.as_str(), "\n")
}

} // verus!
