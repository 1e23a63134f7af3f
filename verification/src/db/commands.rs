//! Commands: how the rules of a directory come into the database.
use vstd::prelude::*;

use crate::db::entry::{fresh, EntryCache, TupEntry};
use crate::db::errors::{DbError, DbErrorText};
use crate::db::links::nodes_in;
use crate::db::nodes::{world, World};
use crate::db::rows::{row_texts, rows_at, NodeRow, RowText};
use crate::db::tables::{ins, links_off, outs, TablesText, TupDb, TupFlags};
use crate::ids::{ascending, has_id, lists};
use crate::parser::rule::{copy_opt, opt_text};
use crate::text::{copy_str, list_contains, same, texts};
use crate::types::{LinkType, NodeType, TupId};

verus! {

/// A command of the database.
#[derive(Debug)]
pub struct StoredCommand {
    /// The node of the command.
    pub cmd_id: TupId,
    pub command: String,
    /// What is shown in place of the command.
    pub display: Option<String>,
    pub flags: Option<String>,
    /// The directory that the command runs in.
    pub dir_id: TupId,
}

/// A command as texts.
#[verifier::ext_equal]
pub struct StoredText {
    pub cmd_id: TupId,
    pub command: Seq<char>,
    pub display: Option<Seq<char>>,
    pub flags: Option<Seq<char>>,
    pub dir_id: TupId,
}

impl View for StoredCommand {
    type V = StoredText;

    open spec fn view(&self) -> StoredText {
        StoredText {
            cmd_id: self.cmd_id,
            command: self.command@,
            display: opt_text(self.display),
            flags: opt_text(self.flags),
            dir_id: self.dir_id,
        }
    }
}

pub open spec fn stored_texts(v: Seq<StoredCommand>) -> Seq<StoredText> {
    Seq::new(v.len(), |i: int| v[i]@)
}

/// A rule that goes into the database.
#[derive(Debug)]
pub struct RuleToStore {
    pub command: String,
    pub inputs: Vec<String>,
    /// Inputs that must be there before the command runs.
    pub order_only_inputs: Vec<String>,
    pub outputs: Vec<String>,
    /// Outputs that are not those for which the command runs.
    pub extra_outputs: Vec<String>,
    pub display: Option<String>,
    pub flags: Option<String>,
}

/// A rule as texts.
#[verifier::ext_equal]
pub struct StoreText {
    pub command: Seq<char>,
    pub inputs: Seq<Seq<char>>,
    pub order_only_inputs: Seq<Seq<char>>,
    pub outputs: Seq<Seq<char>>,
    pub extra_outputs: Seq<Seq<char>>,
    pub display: Option<Seq<char>>,
    pub flags: Option<Seq<char>>,
}

impl View for RuleToStore {
    type V = StoreText;

    open spec fn view(&self) -> StoreText {
        StoreText {
            command: self.command@,
            inputs: texts(self.inputs@),
            order_only_inputs: texts(self.order_only_inputs@),
            outputs: texts(self.outputs@),
            extra_outputs: texts(self.extra_outputs@),
            display: opt_text(self.display),
            flags: opt_text(self.flags),
        }
    }
}

pub open spec fn store_texts(v: Seq<RuleToStore>) -> Seq<StoreText> {
    Seq::new(v.len(), |i: int| v[i]@)
}

/// What came of storing rules.
#[derive(Debug)]
pub struct StoreResult {
    pub commands: Vec<StoredCommand>,
    /// Outputs that no command makes any more, to be deleted from disk.
    pub stale_outputs: Vec<String>,
}

// ------------------------------------------------ one rule

/// The node of a command: there is none for a rule whose name belongs to
/// something else, an error, or the node and whether there was one before.
pub enum Chosen {
    Skip,
    Fail(DbErrorText),
    Node(TupId, bool),
}

impl World {
    /// The command of a rule becomes a node. It is to be run where it is new,
    /// was a ghost, or is shown otherwise or has other flags than before.
    pub open spec fn choose_command(self, dir: TupId, rule: StoreText) -> (World, Chosen) {
        match self.tables.select(dir, rule.command) {
            None => match self.tables.new_row(
                dir,
                rule.command,
                NodeType::Cmd,
                -1i64,
                0,
                -1i64,
                rule.display,
                rule.flags,
            ) {
                Err(e) => (self, Chosen::Fail(e)),
                Ok(row) => (
                    World {
                        tables: self.tables.put(row).flag(row.id, TupFlags::Modify),
                        cache: self.cache.add(fresh(row)),
                    },
                    Chosen::Node(row.id, false),
                ),
            },
            Some(id) => {
                let row = self.tables.nodes[id];
                if row.node_type == NodeType::Cmd {
                    if row.display != rule.display || row.flags != rule.flags {
                        (
                            World {
                                tables: self.tables.set_display(id, rule.display).set_flags(
                                    id,
                                    rule.flags,
                                ).flag(id, TupFlags::Modify),
                                ..self
                            },
                            Chosen::Node(id, true),
                        )
                    } else {
                        (self, Chosen::Node(id, true))
                    }
                } else if row.node_type == NodeType::GhostNode {
                    (
                        World {
                            tables: self.tables.set_type(id, NodeType::Cmd).set_display(
                                id,
                                rule.display,
                            ).set_flags(id, rule.flags).flag(id, TupFlags::Modify),
                            cache: self.cache.set_type(id, NodeType::Cmd),
                        },
                        Chosen::Node(id, true),
                    )
                } else {
                    (self, Chosen::Skip)
                }
            },
        }
    }
}

impl TablesText {
    /// The tables without the links that rules made for a command.
    pub open spec fn without_rule_links(self, cmd: TupId) -> TablesText {
        TablesText {
            normal: links_off(self.normal, cmd),
            sticky: Set::new(|l: (TupId, TupId)| self.sticky.contains(l) && l.1 != cmd),
            ..self
        }
    }

    /// A sticky link leads to a command from each input that is in the
    /// directory.
    pub open spec fn link_inputs(self, dir: TupId, cmd: TupId, names: Seq<Seq<char>>) -> TablesText
        decreases names.len(),
    {
        if names.len() == 0 {
            self
        } else {
            let t = self.link_inputs(dir, cmd, names.drop_last());
            match t.select(dir, names.last()) {
                Some(id) => t.link(id, cmd, LinkType::Sticky),
                None => t,
            }
        }
    }

    /// A link leads to a command from each order-only input that is in the
    /// directory: a sticky one from a generated file, a normal one from
    /// another.
    pub open spec fn link_order_only(
        self,
        dir: TupId,
        cmd: TupId,
        names: Seq<Seq<char>>,
    ) -> TablesText
        decreases names.len(),
    {
        if names.len() == 0 {
            self
        } else {
            let t = self.link_order_only(dir, cmd, names.drop_last());
            match t.select(dir, names.last()) {
                Some(id) => t.link(
                    id,
                    cmd,
                    if t.nodes[id].node_type == NodeType::Generated {
                        LinkType::Sticky
                    } else {
                        LinkType::Normal
                    },
                ),
                None => t,
            }
        }
    }

    /// An output becomes a generated file with a normal link from its command.
    /// One that comes from another command comes from this one now, if `adopt`
    /// says so. A node that is neither generated nor a ghost stays as it is.
    pub open spec fn link_output(
        self,
        dir: TupId,
        cmd: TupId,
        name: Seq<char>,
        adopt: bool,
    ) -> Result<TablesText, DbErrorText> {
        match self.select(dir, name) {
            Some(id) => {
                let row = self.nodes[id];
                if row.node_type != NodeType::Generated && row.node_type != NodeType::GhostNode {
                    Ok(self)
                } else {
                    let t = if row.node_type == NodeType::GhostNode {
                        self.set_type(id, NodeType::Generated)
                    } else {
                        self
                    };
                    let t = if adopt && row.srcid != cmd.0 {
                        t.set_srcid(id, cmd.0)
                    } else {
                        t
                    };
                    Ok(t.link(cmd, id, LinkType::Normal))
                }
            },
            None => match self.new_row(
                dir,
                name,
                NodeType::Generated,
                -1i64,
                0,
                cmd.0,
                None,
                None,
            ) {
                Err(e) => Err(e),
                Ok(row) => Ok(self.put(row).link(cmd, row.id, LinkType::Normal)),
            },
        }
    }

    /// The outputs of a command, up to the first error.
    pub open spec fn link_outputs(
        self,
        dir: TupId,
        cmd: TupId,
        names: Seq<Seq<char>>,
        adopt: bool,
    ) -> (TablesText, Option<DbErrorText>)
        decreases names.len(),
    {
        if names.len() == 0 {
            (self, None)
        } else {
            let (t, e) = self.link_outputs(dir, cmd, names.drop_last(), adopt);
            if e is Some {
                (t, e)
            } else {
                match t.link_output(dir, cmd, names.last(), adopt) {
                    Ok(u) => (u, None),
                    Err(f) => (t, Some(f)),
                }
            }
        }
    }

    /// The links of a rule with a command.
    pub open spec fn link_rule(self, dir: TupId, cmd: TupId, rule: StoreText) -> (
        TablesText,
        Option<DbErrorText>,
    ) {
        let (t, e) = self.link_inputs(dir, cmd, rule.inputs).link_order_only(
            dir,
            cmd,
            rule.order_only_inputs,
        ).link_outputs(dir, cmd, rule.outputs, true);
        if e is Some {
            (t, e)
        } else {
            t.link_outputs(dir, cmd, rule.extra_outputs, false)
        }
    }
}

impl World {
    /// A rule comes into the database. The result is its command, unless its
    /// name belongs to something else, or an error.
    pub open spec fn store_rule(self, dir: TupId, rule: StoreText) -> (
        World,
        Option<StoredText>,
        Option<DbErrorText>,
    ) {
        let (w, chosen) = self.choose_command(dir, rule);
        match chosen {
            Chosen::Skip => (w, None, None),
            Chosen::Fail(e) => (w, None, Some(e)),
            Chosen::Node(cmd, existed) => {
                let t = if existed {
                    w.tables.without_rule_links(cmd)
                } else {
                    w.tables
                };
                let (u, e) = t.link_rule(dir, cmd, rule);
                (
                    World { tables: u, ..w },
                    if e is Some {
                        None
                    } else {
                        Some(stored(dir, cmd, rule))
                    },
                    e,
                )
            },
        }
    }

    /// Rules come into the database, up to the first error.
    pub open spec fn store_all(self, dir: TupId, rules: Seq<StoreText>) -> (
        World,
        Seq<StoredText>,
        Option<DbErrorText>,
    )
        decreases rules.len(),
    {
        if rules.len() == 0 {
            (self, Seq::empty(), None)
        } else {
            let (w, done, e) = self.store_all(dir, rules.drop_last());
            if e is Some {
                (w, done, e)
            } else {
                let (u, s, f) = w.store_rule(dir, rules.last());
                (
                    u,
                    if s is Some {
                        done.push(s->0)
                    } else {
                        done
                    },
                    f,
                )
            }
        }
    }
}

/// The command of a rule.
pub open spec fn stored(dir: TupId, cmd: TupId, rule: StoreText) -> StoredText {
    StoredText {
        cmd_id: cmd,
        command: rule.command,
        display: rule.display,
        flags: rule.flags,
        dir_id: dir,
    }
}

// ------------------------------------------------ what no rule makes any more

/// The nodes of commands.
pub open spec fn command_ids(s: Seq<StoredText>) -> Set<TupId> {
    Set::new(|id: TupId| exists|i: int| 0 <= i < s.len() && (#[trigger] s[i]).cmd_id == id)
}

/// Whether a rule has an output of a name.
pub open spec fn is_declared(rules: Seq<StoreText>, name: Seq<char>) -> bool {
    exists|i: int|
        0 <= i < rules.len() && ((#[trigger] rules[i]).outputs.contains(name)
            || rules[i].extra_outputs.contains(name))
}

/// Whether a row is a command that is not active.
pub open spec fn is_stale(row: RowText, active: Set<TupId>) -> bool {
    row.node_type == NodeType::Cmd && !active.contains(row.id)
}

/// The rows of the files that a command generates.
pub open spec fn outputs_of(rows: Seq<RowText>, cmd: TupId) -> Seq<RowText>
    decreases rows.len(),
{
    if rows.len() == 0 {
        Seq::empty()
    } else {
        let before = outputs_of(rows.drop_last(), cmd);
        if rows.last().node_type == NodeType::Generated && rows.last().srcid == cmd.0 {
            before.push(rows.last())
        } else {
            before
        }
    }
}

/// The commands of a list that are not active, each after its outputs.
pub open spec fn stale_rows(
    all: Seq<RowText>,
    rows: Seq<RowText>,
    active: Set<TupId>,
) -> Seq<RowText>
    decreases rows.len(),
{
    if rows.len() == 0 {
        Seq::empty()
    } else {
        let before = stale_rows(all, rows.drop_last(), active);
        if is_stale(rows.last(), active) {
            (before + outputs_of(all, rows.last().id)).push(rows.last())
        } else {
            before
        }
    }
}

/// Whether a row is a file that an active command generated and that no rule
/// declares.
pub open spec fn is_orphan(row: RowText, active: Set<TupId>, rules: Seq<StoreText>) -> bool {
    &&& row.node_type == NodeType::Generated
    &&& active.contains(TupId(row.srcid))
    &&& !is_declared(rules, row.name)
}

pub open spec fn orphans(
    rows: Seq<RowText>,
    active: Set<TupId>,
    rules: Seq<StoreText>,
) -> Seq<RowText>
    decreases rows.len(),
{
    if rows.len() == 0 {
        Seq::empty()
    } else {
        let before = orphans(rows.drop_last(), active, rules);
        if is_orphan(rows.last(), active, rules) {
            before.push(rows.last())
        } else {
            before
        }
    }
}

/// The names of the generated files among some rows.
pub open spec fn generated_names(rows: Seq<RowText>) -> Seq<Seq<char>>
    decreases rows.len(),
{
    if rows.len() == 0 {
        Seq::empty()
    } else {
        let before = generated_names(rows.drop_last());
        if rows.last().node_type == NodeType::Generated {
            before.push(rows.last().name)
        } else {
            before
        }
    }
}

impl TablesText {
    /// The tables without some nodes and their normal and sticky links.
    pub open spec fn drop_rows(self, rows: Seq<RowText>) -> TablesText
        decreases rows.len(),
    {
        if rows.len() == 0 {
            self
        } else {
            self.drop_rows(rows.drop_last()).unlink_all(rows.last().id).delete_node(
                rows.last().id,
            )
        }
    }

    /// The rows of a directory.
    pub open spec fn rows_in(self, dir: TupId) -> Seq<RowText> {
        rows_at(self.nodes, ascending(nodes_in(self.nodes, dir)))
    }

    /// What goes from a directory when some commands are active and some rules
    /// are in force.
    pub open spec fn leftovers(
        self,
        dir: TupId,
        active: Set<TupId>,
        rules: Seq<StoreText>,
    ) -> Seq<RowText> {
        let rows = self.rows_in(dir);
        stale_rows(rows, rows, active) + orphans(rows, active, rules)
    }
}

impl World {
    /// The rules of a directory come into the database, and what no rule makes
    /// any more goes. The result is the commands and the names of the generated
    /// files that went.
    pub open spec fn store_rules(self, dir: TupId, rules: Seq<StoreText>) -> (
        World,
        Result<(Seq<StoredText>, Seq<Seq<char>>), DbErrorText>,
    ) {
        let (w, done, e) = self.store_all(dir, rules);
        if e is Some {
            (w, Err(e->0))
        } else {
            let gone = w.tables.leftovers(dir, command_ids(done), rules);
            (
                World { tables: w.tables.drop_rows(gone), ..w },
                Ok((done, generated_names(gone))),
            )
        }
    }
}

// ------------------------------------------------ in code

fn same_opt(a: &Option<String>, b: &Option<String>) -> (r: bool)
    ensures
        r == (opt_text(*a) == opt_text(*b)),
{
    match (a, b) {
        (Some(x), Some(y)) => same(x.as_str(), y.as_str()),
        (None, None) => true,
        _ => false,
    }
}

fn as_str_opt(s: &Option<String>) -> (r: Option<&str>)
    ensures
        crate::parser::reader::opt_str(r) == opt_text(*s),
{
    match s {
        Some(t) => Some(t.as_str()),
        None => None,
    }
}

/// What came of the node of a command.
enum CommandNode {
    Skip,
    Fail(DbError),
    Node(TupId, bool),
}

impl CommandNode {
    spec fn text(self) -> Chosen {
        match self {
            CommandNode::Skip => Chosen::Skip,
            CommandNode::Fail(e) => Chosen::Fail(e@),
            CommandNode::Node(id, b) => Chosen::Node(id, b),
        }
    }
}

fn command_node(
    db: &mut TupDb,
    cache: &mut EntryCache,
    dir_id: TupId,
    rule: &RuleToStore,
) -> (r: CommandNode)
    ensures
        ({
            let (w, c) = world(*old(db), *old(cache)).choose_command(dir_id, rule@);
            &&& final(db)@ == old(db)@.with(w.tables)
            &&& final(cache)@ == w.cache
            &&& r.text() == c
        }),
{
    let name = command_node_name(rule.command.as_str());
    match db.node_select(dir_id, name.as_str()) {
        Some(row) => {
            if row.node_type == NodeType::Cmd {
                if !same_opt(&row.display, &rule.display) || !same_opt(&row.flags, &rule.flags) {
                    db.node_set_display(row.id, as_str_opt(&rule.display));
                    db.node_set_flags(row.id, as_str_opt(&rule.flags));
                    db.flag_add(row.id, TupFlags::Modify);
                }
                CommandNode::Node(row.id, true)
            } else if row.node_type == NodeType::GhostNode {
                db.node_set_type(row.id, NodeType::Cmd);
                db.node_set_display(row.id, as_str_opt(&rule.display));
                db.node_set_flags(row.id, as_str_opt(&rule.flags));
                db.flag_add(row.id, TupFlags::Modify);
                cache.change_type(row.id, NodeType::Cmd);
                CommandNode::Node(row.id, true)
            } else {
                CommandNode::Skip
            }
        },
        None => {
            let id = match db.node_insert(
                dir_id,
                name.as_str(),
                NodeType::Cmd,
                -1,
                0,
                -1,
                as_str_opt(&rule.display),
                as_str_opt(&rule.flags),
            ) {
                Ok(id) => id,
                Err(e) => {
                    return CommandNode::Fail(e);
                },
            };
            db.flag_add(id, TupFlags::Modify);
            if let Some(row) = db.node_select_by_id(id) {
                let _ = cache.add(TupEntry::from_node_row(&row));
            }
            CommandNode::Node(id, false)
        },
    }
}

/// Removes the links that rules made for a command.
fn remove_rule_links(db: &mut TupDb, cmd: TupId)
    ensures
        final(db)@ == old(db)@.with(old(db)@.tables.without_rule_links(cmd)),
{
    let ghost t = db@.tables;
    let old_outputs = db.get_normal_outputs(cmd);
    let mut i: usize = 0;
    while i < old_outputs.len()
        invariant
            i <= old_outputs.len(),
            db@.saved == old(db)@.saved,
            t == old(db)@.tables,
            db@.tables == (TablesText { normal: db@.tables.normal, ..t }),
            forall|l: (TupId, TupId)| #[trigger]
                db@.tables.normal.contains(l) <==> t.normal.contains(l) && !(l.0 == cmd
                    && old_outputs@.take(i as int).contains(l.1)),
        decreases old_outputs.len() - i,
    {
        let ghost pre = old_outputs@.take(i as int);
        let ghost next = old_outputs@.take(i + 1);
        proof {
            assert(next =~= pre.push(old_outputs@[i as int]));
            lemma_push_contains(pre, old_outputs@[i as int]);
        }
        let _ = db.link_remove(cmd, old_outputs[i], LinkType::Normal);
        i += 1;
    }
    assert(old_outputs@.take(old_outputs@.len() as int) =~= old_outputs@);
    let ghost t1 = db@.tables;
    let old_sticky = db.get_sticky_inputs(cmd);
    let mut j: usize = 0;
    while j < old_sticky.len()
        invariant
            j <= old_sticky.len(),
            db@.saved == old(db)@.saved,
            db@.tables == (TablesText { sticky: db@.tables.sticky, ..t1 }),
            forall|l: (TupId, TupId)| #[trigger]
                db@.tables.sticky.contains(l) <==> t1.sticky.contains(l) && !(l.1 == cmd
                    && old_sticky@.take(j as int).contains(l.0)),
        decreases old_sticky.len() - j,
    {
        let ghost pre = old_sticky@.take(j as int);
        let ghost next = old_sticky@.take(j + 1);
        proof {
            assert(next =~= pre.push(old_sticky@[j as int]));
            lemma_push_contains(pre, old_sticky@[j as int]);
        }
        let _ = db.link_remove(old_sticky[j], cmd, LinkType::Sticky);
        j += 1;
    }
    assert(old_sticky@.take(old_sticky@.len() as int) =~= old_sticky@);
    let ghost t2 = db@.tables;
    let old_normal = db.get_normal_inputs(cmd);
    let mut k: usize = 0;
    while k < old_normal.len()
        invariant
            k <= old_normal.len(),
            db@.saved == old(db)@.saved,
            db@.tables == (TablesText { normal: db@.tables.normal, ..t2 }),
            forall|l: (TupId, TupId)| #[trigger]
                db@.tables.normal.contains(l) <==> t2.normal.contains(l) && !(l.1 == cmd
                    && old_normal@.take(k as int).contains(l.0)),
        decreases old_normal.len() - k,
    {
        let ghost pre = old_normal@.take(k as int);
        let ghost next = old_normal@.take(k + 1);
        proof {
            assert(next =~= pre.push(old_normal@[k as int]));
            lemma_push_contains(pre, old_normal@[k as int]);
        }
        let _ = db.link_remove(old_normal[k], cmd, LinkType::Normal);
        k += 1;
    }
    proof {
        assert(old_normal@.take(old_normal@.len() as int) =~= old_normal@);
        let want = t.without_rule_links(cmd);
        assert(db@.tables.normal =~= want.normal) by {
            assert forall|l: (TupId, TupId)| db@.tables.normal.contains(l) <==> want.normal.contains(
                l,
            ) by {
                if t.normal.contains(l) && l.0 == cmd {
                    assert(outs(t.normal, cmd).contains(l.1));
                    assert(old_outputs@.contains(l.1));
                }
                if t2.normal.contains(l) && l.1 == cmd {
                    assert(ins(t2.normal, cmd).contains(l.0));
                    assert(old_normal@.contains(l.0));
                }
            }
        }
        assert(db@.tables.sticky =~= want.sticky) by {
            assert forall|l: (TupId, TupId)| db@.tables.sticky.contains(l) <==> want.sticky.contains(
                l,
            ) by {
                if t.sticky.contains(l) && l.1 == cmd {
                    assert(ins(t1.sticky, cmd).contains(l.0));
                    assert(old_sticky@.contains(l.0));
                }
            }
        }
    }
}

proof fn lemma_push_contains(s: Seq<TupId>, x: TupId)
    ensures
        forall|y: TupId| #[trigger] s.push(x).contains(y) <==> s.contains(y) || y == x,
{
    assert forall|y: TupId| #[trigger] s.push(x).contains(y) <==> s.contains(y) || y == x by {
        if s.contains(y) {
            let k = choose|k: int| 0 <= k < s.len() && s[k] == y;
            assert(s.push(x)[k] == y);
        }
        assert(s.push(x)[s.len() as int] == x);
        if s.push(x).contains(y) {
            let k = choose|k: int| 0 <= k < s.push(x).len() && s.push(x)[k] == y;
            if k < s.len() {
                assert(s[k] == y);
            }
        }
    }
}

fn link_rule_inputs(db: &mut TupDb, dir_id: TupId, cmd: TupId, names: &Vec<String>)
    ensures
        final(db)@ == old(db)@.with(old(db)@.tables.link_inputs(dir_id, cmd, texts(names@))),
{
    let ghost t = db@.tables;
    let ghost all = texts(names@);
    let mut i: usize = 0;
    assert(all.take(0) =~= Seq::empty());
    while i < names.len()
        invariant
            i <= names.len(),
            t == old(db)@.tables,
            all == texts(names@),
            db@ == old(db)@.with(t.link_inputs(dir_id, cmd, all.take(i as int))),
        decreases names.len() - i,
    {
        proof {
            assert(all.take(i + 1).drop_last() =~= all.take(i as int));
            assert(all.take(i + 1).last() == names@[i as int]@);
        }
        if let Some(node) = db.node_select(dir_id, names[i].as_str()) {
            db.link_insert(node.id, cmd, LinkType::Sticky);
        }
        i += 1;
    }
    assert(all.take(all.len() as int) =~= all);
}

fn link_rule_order_only(db: &mut TupDb, dir_id: TupId, cmd: TupId, names: &Vec<String>)
    ensures
        final(db)@ == old(db)@.with(old(db)@.tables.link_order_only(dir_id, cmd, texts(names@))),
{
    let ghost t = db@.tables;
    let ghost all = texts(names@);
    let mut i: usize = 0;
    assert(all.take(0) =~= Seq::empty());
    while i < names.len()
        invariant
            i <= names.len(),
            t == old(db)@.tables,
            all == texts(names@),
            db@ == old(db)@.with(t.link_order_only(dir_id, cmd, all.take(i as int))),
        decreases names.len() - i,
    {
        proof {
            assert(all.take(i + 1).drop_last() =~= all.take(i as int));
            assert(all.take(i + 1).last() == names@[i as int]@);
        }
        if let Some(node) = db.node_select(dir_id, names[i].as_str()) {
            let link_type = if node.node_type == NodeType::Generated {
                LinkType::Sticky
            } else {
                LinkType::Normal
            };
            db.link_insert(node.id, cmd, link_type);
        }
        i += 1;
    }
    assert(all.take(all.len() as int) =~= all);
}

fn link_rule_output(
    db: &mut TupDb,
    dir_id: TupId,
    cmd: TupId,
    name: &str,
    adopt: bool,
) -> (r: Result<(), DbError>)
    ensures
        match (r, old(db)@.tables.link_output(dir_id, cmd, name@, adopt)) {
            (Ok(()), Ok(t)) => final(db)@ == old(db)@.with(t),
            (Err(e), Err(f)) => e@ == f && final(db)@ == old(db)@,
            _ => false,
        },
{
    let output_id = match db.node_select(dir_id, name) {
        Some(row) => {
            if row.node_type != NodeType::Generated && row.node_type != NodeType::GhostNode {
                return Ok(());
            }
            if row.node_type == NodeType::GhostNode {
                db.node_set_type(row.id, NodeType::Generated);
            }
            if adopt && row.srcid != cmd.raw() {
                db.node_set_srcid(row.id, cmd.raw());
            }
            row.id
        },
        None => match db.node_insert(
            dir_id,
            name,
            NodeType::Generated,
            -1,
            0,
            cmd.raw(),
            None,
            None,
        ) {
            Ok(id) => id,
            Err(e) => {
                return Err(e);
            },
        },
    };
    db.link_insert(cmd, output_id, LinkType::Normal);
    Ok(())
}

fn link_rule_outputs(
    db: &mut TupDb,
    dir_id: TupId,
    cmd: TupId,
    names: &Vec<String>,
    adopt: bool,
) -> (r: Result<(), DbError>)
    ensures
        ({
            let (t, e) = old(db)@.tables.link_outputs(dir_id, cmd, texts(names@), adopt);
            &&& final(db)@ == old(db)@.with(t)
            &&& match (r, e) {
                (Ok(()), None) => true,
                (Err(a), Some(b)) => a@ == b,
                _ => false,
            }
        }),
{
    let ghost t = db@.tables;
    let ghost all = texts(names@);
    let mut i: usize = 0;
    assert(all.take(0) =~= Seq::empty());
    while i < names.len()
        invariant
            i <= names.len(),
            t == old(db)@.tables,
            all == texts(names@),
            db@ == old(db)@.with(t.link_outputs(dir_id, cmd, all.take(i as int), adopt).0),
            t.link_outputs(dir_id, cmd, all.take(i as int), adopt).1 is None,
        decreases names.len() - i,
    {
        proof {
            assert(all.take(i + 1).drop_last() =~= all.take(i as int));
            assert(all.take(i + 1).last() == names@[i as int]@);
        }
        match link_rule_output(db, dir_id, cmd, names[i].as_str(), adopt) {
            Ok(()) => {},
            Err(e) => {
                proof {
                    lemma_error_stays(t, dir_id, cmd, all, adopt, i + 1);
                }
                return Err(e);
            },
        }
        i += 1;
    }
    assert(all.take(all.len() as int) =~= all);
    Ok(())
}

/// After an error the outputs that follow change nothing.
proof fn lemma_error_stays(
    t: TablesText,
    dir: TupId,
    cmd: TupId,
    names: Seq<Seq<char>>,
    adopt: bool,
    i: int,
)
    requires
        0 <= i <= names.len(),
        t.link_outputs(dir, cmd, names.take(i), adopt).1 is Some,
    ensures
        t.link_outputs(dir, cmd, names, adopt) == t.link_outputs(dir, cmd, names.take(i), adopt),
    decreases names.len() - i,
{
    if i == names.len() {
        assert(names.take(i) =~= names);
    } else {
        assert(names.take(i + 1).drop_last() =~= names.take(i));
        lemma_error_stays(t, dir, cmd, names, adopt, i + 1);
    }
}

/// After an error the rules that follow change nothing.
proof fn lemma_store_error_stays(w: World, dir: TupId, rules: Seq<StoreText>, i: int)
    requires
        0 <= i <= rules.len(),
        w.store_all(dir, rules.take(i)).2 is Some,
    ensures
        w.store_all(dir, rules) == w.store_all(dir, rules.take(i)),
    decreases rules.len() - i,
{
    if i == rules.len() {
        assert(rules.take(i) =~= rules);
    } else {
        assert(rules.take(i + 1).drop_last() =~= rules.take(i));
        lemma_store_error_stays(w, dir, rules, i + 1);
    }
}

/// Stores one rule.
fn store_one(
    db: &mut TupDb,
    cache: &mut EntryCache,
    dir_id: TupId,
    rule: &RuleToStore,
) -> (r: Result<Option<StoredCommand>, DbError>)
    ensures
        ({
            let (w, s, e) = world(*old(db), *old(cache)).store_rule(dir_id, rule@);
            &&& final(db)@ == old(db)@.with(w.tables)
            &&& final(cache)@ == w.cache
            &&& match r {
                Ok(Some(c)) => e is None && s == Some(c@),
                Ok(None) => e is None && s is None,
                Err(f) => e == Some(f@),
            }
        }),
{
    let (cmd_id, existed) = match command_node(db, cache, dir_id, rule) {
        CommandNode::Skip => {
            return Ok(None);
        },
        CommandNode::Fail(e) => {
            return Err(e);
        },
        CommandNode::Node(id, b) => (id, b),
    };
    if existed {
        remove_rule_links(db, cmd_id);
    }
    link_rule_inputs(db, dir_id, cmd_id, &rule.inputs);
    link_rule_order_only(db, dir_id, cmd_id, &rule.order_only_inputs);
    match link_rule_outputs(db, dir_id, cmd_id, &rule.outputs, true) {
        Ok(()) => {},
        Err(e) => {
            return Err(e);
        },
    }
    match link_rule_outputs(db, dir_id, cmd_id, &rule.extra_outputs, false) {
        Ok(()) => {},
        Err(e) => {
            return Err(e);
        },
    }
    Ok(
        Some(
            StoredCommand {
                cmd_id,
                command: rule.command.clone(),
                display: copy_opt(&rule.display),
                flags: copy_opt(&rule.flags),
                dir_id,
            },
        ),
    )
}

fn ids_of_commands(s: &Vec<StoredCommand>) -> (r: Vec<TupId>)
    ensures
        forall|id: TupId| #[trigger]
            r@.contains(id) <==> command_ids(stored_texts(s@)).contains(id),
{
    let mut out: Vec<TupId> = Vec::new();
    let mut i: usize = 0;
    while i < s.len()
        invariant
            i <= s.len(),
            out@.len() == i,
            forall|j: int| 0 <= j < i ==> #[trigger] out@[j] == s@[j].cmd_id,
        decreases s.len() - i,
    {
        out.push(s[i].cmd_id);
        i += 1;
    }
    proof {
        let t = stored_texts(s@);
        assert forall|id: TupId| #[trigger]
            out@.contains(id) <==> command_ids(t).contains(id) by {
            if out@.contains(id) {
                let j = choose|j: int| 0 <= j < out@.len() && out@[j] == id;
                assert(t[j].cmd_id == id);
            }
            if command_ids(t).contains(id) {
                let j = choose|j: int| 0 <= j < t.len() && (#[trigger] t[j]).cmd_id == id;
                assert(out@[j] == id);
            }
        }
    }
    out
}

fn declares(rules: &[RuleToStore], name: &str) -> (r: bool)
    ensures
        r == is_declared(store_texts(rules@), name@),
{
    let ghost all = store_texts(rules@);
    let mut i: usize = 0;
    while i < rules.len()
        invariant
            i <= rules.len(),
            all == store_texts(rules@),
            forall|j: int|
                0 <= j < i ==> !((#[trigger] all[j]).outputs.contains(name@)
                    || all[j].extra_outputs.contains(name@)),
        decreases rules.len() - i,
    {
        assert(all[i as int] == rules@[i as int]@);
        if list_contains(rules[i].outputs.as_slice(), name) || list_contains(
            rules[i].extra_outputs.as_slice(),
            name,
        ) {
            return true;
        }
        i += 1;
    }
    false
}

fn drop_node(db: &mut TupDb, id: TupId)
    ensures
        final(db)@ == old(db)@.with(old(db)@.tables.unlink_all(id).delete_node(id)),
{
    db.link_delete_all(id);
    let _ = db.node_delete(id);
}

/// Removes the commands of some rows that are not active, and what they
/// generate.
fn drop_stale(
    db: &mut TupDb,
    rows: &Vec<NodeRow>,
    active: &Vec<TupId>,
    names: &mut Vec<String>,
)
    requires
        old(names)@.len() == 0,
    ensures
        ({
            let all = row_texts(rows@);
            let gone = stale_rows(all, all, active@.to_set());
            &&& final(db)@ == old(db)@.with(old(db)@.tables.drop_rows(gone))
            &&& texts(final(names)@) == generated_names(gone)
        }),
{
    let ghost t = db@.tables;
    let ghost all = row_texts(rows@);
    let ghost live = active@.to_set();
    let mut i: usize = 0;
    proof {
        assert(all.take(0) =~= Seq::empty());
        assert(texts(names@) =~= Seq::empty());
    }
    while i < rows.len()
        invariant
            i <= rows.len(),
            t == old(db)@.tables,
            all == row_texts(rows@),
            live == active@.to_set(),
            db@ == old(db)@.with(t.drop_rows(stale_rows(all, all.take(i as int), live))),
            texts(names@) == generated_names(stale_rows(all, all.take(i as int), live)),
        decreases rows.len() - i,
    {
        let ghost base = stale_rows(all, all.take(i as int), live);
        proof {
            assert(all.take(i + 1).drop_last() =~= all.take(i as int));
            assert(all.take(i + 1).last() == rows@[i as int]@);
        }
        if rows[i].node_type == NodeType::Cmd && !has_id(active, rows[i].id) {
            let cmd = rows[i].id;
            let mut j: usize = 0;
            proof {
                assert(all.take(0) =~= Seq::empty());
                assert(base + outputs_of(all.take(0), cmd) =~= base);
            }
            while j < rows.len()
                invariant
                    j <= rows.len(),
                    all == row_texts(rows@),
                    db@ == old(db)@.with(
                        t.drop_rows(base + outputs_of(all.take(j as int), cmd)),
                    ),
                    texts(names@) == generated_names(base + outputs_of(all.take(j as int), cmd)),
                decreases rows.len() - j,
            {
                let ghost made = outputs_of(all.take(j as int), cmd);
                proof {
                    assert(all.take(j + 1).drop_last() =~= all.take(j as int));
                    assert(all.take(j + 1).last() == rows@[j as int]@);
                }
                if rows[j].node_type == NodeType::Generated && rows[j].srcid == cmd.raw() {
                    let ghost before = names@;
                    names.push(rows[j].name.clone());
                    drop_node(db, rows[j].id);
                    proof {
                        let row = rows@[j as int]@;
                        assert(base + made.push(row) =~= (base + made).push(row));
                        assert((base + made).push(row).drop_last() =~= base + made);
                        assert(texts(names@) =~= texts(before).push(row.name));
                    }
                }
                j += 1;
            }
            drop_node(db, cmd);
            proof {
                let row = rows@[i as int]@;
                assert(all.take(all.len() as int) =~= all);
                let s = base + outputs_of(all, cmd);
                assert(s.push(row).drop_last() =~= s);
            }
        }
        i += 1;
    }
    assert(all.take(all.len() as int) =~= all);
}

/// Removes the files of some rows that active commands generated and that no
/// rule declares.
fn drop_orphans(
    db: &mut TupDb,
    rows: &Vec<NodeRow>,
    active: &Vec<TupId>,
    rules: &[RuleToStore],
    names: &mut Vec<String>,
)
    ensures
        ({
            let gone = orphans(row_texts(rows@), active@.to_set(), store_texts(rules@));
            &&& final(db)@ == old(db)@.with(old(db)@.tables.drop_rows(gone))
            &&& texts(final(names)@) == texts(old(names)@) + generated_names(gone)
        }),
{
    let ghost t = db@.tables;
    let ghost all = row_texts(rows@);
    let ghost live = active@.to_set();
    let ghost texts_of_rules = store_texts(rules@);
    let ghost first = texts(names@);
    let mut i: usize = 0;
    proof {
        assert(all.take(0) =~= Seq::empty());
        assert(texts(names@) =~= first + generated_names(Seq::empty()));
    }
    while i < rows.len()
        invariant
            i <= rows.len(),
            t == old(db)@.tables,
            all == row_texts(rows@),
            live == active@.to_set(),
            texts_of_rules == store_texts(rules@),
            db@ == old(db)@.with(t.drop_rows(orphans(all.take(i as int), live, texts_of_rules))),
            texts(names@) == first + generated_names(
                orphans(all.take(i as int), live, texts_of_rules),
            ),
        decreases rows.len() - i,
    {
        let ghost base = orphans(all.take(i as int), live, texts_of_rules);
        proof {
            assert(all.take(i + 1).drop_last() =~= all.take(i as int));
            assert(all.take(i + 1).last() == rows@[i as int]@);
        }
        if rows[i].node_type == NodeType::Generated && has_id(active, TupId::new(rows[i].srcid))
            && !declares(rules, rows[i].name.as_str()) {
            let ghost before = names@;
            names.push(rows[i].name.clone());
            drop_node(db, rows[i].id);
            proof {
                let row = rows@[i as int]@;
                assert(base.push(row).drop_last() =~= base);
                assert(texts(names@) =~= texts(before).push(row.name));
                assert(first + generated_names(base).push(row.name) =~= (first + generated_names(
                    base,
                )).push(row.name));
            }
        }
        i += 1;
    }
    assert(all.take(all.len() as int) =~= all);
}

proof fn lemma_drop_rows_add(t: TablesText, a: Seq<RowText>, b: Seq<RowText>)
    ensures
        t.drop_rows(a + b) == t.drop_rows(a).drop_rows(b),
        generated_names(a + b) == generated_names(a) + generated_names(b),
    decreases b.len(),
{
    if b.len() == 0 {
        assert(a + b =~= a);
        assert(generated_names(a) + generated_names(b) =~= generated_names(a));
    } else {
        lemma_drop_rows_add(t, a, b.drop_last());
        assert((a + b).drop_last() =~= a + b.drop_last());
        if b.last().node_type == NodeType::Generated {
            assert(generated_names(a) + generated_names(b.drop_last()).push(b.last().name) =~= (
            generated_names(a) + generated_names(b.drop_last())).push(b.last().name));
        }
    }
}

/// Stores the rules of a directory as commands with their links, and removes
/// the commands of the directory that no rule gives any more, with the files
/// that they generated, and the files that a rule does not declare any more.
///
/// A command is to be run where it is new or where it changed.
pub fn store_rules(
    db: &mut TupDb,
    cache: &mut EntryCache,
    dir_id: TupId,
    rules: &[RuleToStore],
) -> (r: Result<StoreResult, DbError>)
    ensures
        ({
            let (w, t) = world(*old(db), *old(cache)).store_rules(dir_id, store_texts(rules@));
            &&& final(db)@ == old(db)@.with(w.tables)
            &&& final(cache)@ == w.cache
            &&& match (r, t) {
                (Ok(s), Ok((commands, stale))) => stored_texts(s.commands@) == commands && texts(
                    s.stale_outputs@,
                ) == stale,
                (Err(e), Err(f)) => e@ == f,
                _ => false,
            }
        }),
{
    let ghost start = world(*db, *cache);
    let ghost all = store_texts(rules@);
    let mut commands: Vec<StoredCommand> = Vec::new();
    let mut i: usize = 0;
    proof {
        assert(all.take(0) =~= Seq::empty());
        assert(stored_texts(commands@) =~= Seq::empty());
    }
    while i < rules.len()
        invariant
            i <= rules.len(),
            start == world(*old(db), *old(cache)),
            all == store_texts(rules@),
            db@ == old(db)@.with(start.store_all(dir_id, all.take(i as int)).0.tables),
            cache@ == start.store_all(dir_id, all.take(i as int)).0.cache,
            stored_texts(commands@) == start.store_all(dir_id, all.take(i as int)).1,
            start.store_all(dir_id, all.take(i as int)).2 is None,
        decreases rules.len() - i,
    {
        proof {
            assert(all.take(i + 1).drop_last() =~= all.take(i as int));
            assert(all.take(i + 1).last() == rules@[i as int]@);
            assert(world(*db, *cache) == start.store_all(dir_id, all.take(i as int)).0);
        }
        match store_one(db, cache, dir_id, &rules[i]) {
            Ok(Some(c)) => {
                let ghost before = commands@;
                commands.push(c);
                assert(stored_texts(commands@) =~= stored_texts(before).push(c@));
            },
            Ok(None) => {},
            Err(e) => {
                proof {
                    lemma_store_error_stays(start, dir_id, all, i + 1);
                }
                return Err(e);
            },
        }
        i += 1;
    }
    proof {
        assert(all.take(all.len() as int) =~= all);
    }
    let active = ids_of_commands(&commands);
    let existing = db.node_select_dir(dir_id);
    let mut stale_outputs: Vec<String> = Vec::new();
    proof {
        let w = start.store_all(dir_id, all).0;
        let rows = w.tables.rows_in(dir_id);
        let live = command_ids(stored_texts(commands@));
        assert(active@.to_set() =~= live);
        assert(row_texts(existing@) == rows);
        lemma_drop_rows_add(
            w.tables,
            stale_rows(rows, rows, live),
            orphans(rows, live, all),
        );
    }
    drop_stale(db, &existing, &active, &mut stale_outputs);
    drop_orphans(db, &existing, &active, rules, &mut stale_outputs);
    Ok(StoreResult { commands, stale_outputs })
}

/// The commands that are to be run.
pub fn get_modified_commands(db: &TupDb) -> (r: Vec<TupId>)
    ensures
        r@ == ascending(
            db@.tables.known_of((db@.tables.flags)(TupFlags::Modify), NodeType::Cmd),
        ),
        lists(r@, db@.tables.known_of((db@.tables.flags)(TupFlags::Modify), NodeType::Cmd)),
{
    let ids = db.flag_list(TupFlags::Modify);
    let cmds = db.pick_known_of(&ids, NodeType::Cmd);
    proof {
        let t = db@.tables;
        assert(ids@.to_set() =~= (t.flags)(TupFlags::Modify));
        crate::ids::ascending_is_unique(
            cmds@,
            t.known_of((t.flags)(TupFlags::Modify), NodeType::Cmd),
        );
    }
    cmds
}

/// Takes note that a command has run.
pub fn mark_command_done(db: &mut TupDb, cmd_id: TupId)
    ensures
        final(db)@ == old(db)@.with(old(db)@.tables.unflag(cmd_id, TupFlags::Modify)),
{
    db.flag_remove(cmd_id, TupFlags::Modify);
}

/// The name of the node of a command: the command itself.
pub fn command_node_name(command: &str) -> (r: String)
    ensures
        r@ == command@,
{
    copy_str(command)
}

} // verus!
