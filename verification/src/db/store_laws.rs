//! What holds of storing the rules of a directory.
use vstd::prelude::*;

use crate::db::commands::{
    command_ids, generated_names, is_declared, is_orphan, is_stale, orphans, outputs_of, stale_rows,
    stored, Chosen, StoreText, StoredText,
};
use crate::db::links::nodes_in;
use crate::db::nodes::World;
use crate::db::rows::{find_named, is_greatest, is_least_free, is_named, new_id, unique_names, RowText};
use crate::db::tables::{initial_tables, TablesText, TupFlags};
use crate::ids::{ascending, ascending_lists, lemma_greatest};
use crate::types::{ids_are_finite, NodeType, TupId};

verus! {

/// A new node gets an identifier that no node has.
pub proof fn new_identifier_is_new(nodes: Map<TupId, RowText>)
    requires
        new_id(nodes) is Some,
    ensures
        !nodes.dom().contains(new_id(nodes)->0),
{
    let id = new_id(nodes)->0;
    if nodes.dom() != Set::<TupId>::empty() {
        let g = lemma_greatest(nodes.dom());
        assert(is_greatest(nodes, g));
        let c = choose|x: TupId| #[trigger] is_greatest(nodes, x);
        assert(is_greatest(nodes, c));
        if nodes.dom().contains(id) {
            assert(id.0 <= c.0);
        }
    }
}

/// The node with a name is the one that is found under it.
pub proof fn a_name_finds_its_node(nodes: Map<TupId, RowText>, dir: TupId, name: Seq<char>, id: TupId)
    requires
        unique_names(nodes),
        is_named(nodes, dir, name, id),
    ensures
        find_named(nodes, dir, name) == Some(id),
{
    let c = choose|x: TupId| is_named(nodes, dir, name, x);
    assert(is_named(nodes, dir, name, c));
    assert(nodes.dom().contains(c) && nodes.dom().contains(id));
}

pub proof fn lemma_found(nodes: Map<TupId, RowText>, dir: TupId, name: Seq<char>)
    ensures
        match find_named(nodes, dir, name) {
            Some(id) => is_named(nodes, dir, name, id),
            None => forall|id: TupId| !#[trigger] is_named(nodes, dir, name, id),
        },
{
}

/// A command of a rule stands in the tables as the rule has it.
pub open spec fn has_command(t: TablesText, dir: TupId, id: TupId, rule: StoreText) -> bool {
    &&& t.nodes.dom().contains(id)
    &&& t.nodes[id].dir == dir
    &&& t.nodes[id].name == rule.command
    &&& t.nodes[id].node_type == NodeType::Cmd
    &&& t.nodes[id].display == rule.display
    &&& t.nodes[id].flags == rule.flags
}

/// A change that leaves commands and pending work as they are, and names
/// unique.
pub open spec fn keeps(t: TablesText, u: TablesText) -> bool {
    &&& unique_names(t.nodes) ==> unique_names(u.nodes)
    &&& u.flags == t.flags
    &&& forall|id: TupId| #[trigger]
        t.nodes.dom().contains(id) && t.nodes[id].node_type == NodeType::Cmd
            ==> u.nodes.dom().contains(id) && u.nodes[id] == t.nodes[id]
}

proof fn lemma_keeps_trans(a: TablesText, b: TablesText, c: TablesText)
    requires
        keeps(a, b),
        keeps(b, c),
    ensures
        keeps(a, c),
{
    assert forall|id: TupId| #[trigger]
        a.nodes.dom().contains(id) && a.nodes[id].node_type == NodeType::Cmd implies
            c.nodes.dom().contains(id) && c.nodes[id] == a.nodes[id] by {
        assert(b.nodes.dom().contains(id));
    }
}

/// A row takes the place of one with the same name, or one that is free.
proof fn lemma_put_unique(nodes: Map<TupId, RowText>, row: RowText)
    requires
        unique_names(nodes),
        forall|x: TupId| #[trigger] is_named(nodes, row.dir, row.name, x) ==> x == row.id,
    ensures
        unique_names(nodes.insert(row.id, row)),
{
    let after = nodes.insert(row.id, row);
    assert forall|a: TupId, b: TupId|
        #![trigger after.dom().contains(a), after.dom().contains(b)]
        after.dom().contains(a) && after.dom().contains(b) && after[a].dir == after[b].dir
            && after[a].name == after[b].name implies a == b by {
        if a != row.id && b != row.id {
            assert(nodes.dom().contains(a) && nodes.dom().contains(b));
        } else if a == row.id && b != row.id {
            assert(is_named(nodes, row.dir, row.name, b));
        } else if b == row.id && a != row.id {
            assert(is_named(nodes, row.dir, row.name, a));
        }
    }
    assert forall|id: TupId| #[trigger] after.dom().contains(id) implies after[id].id == id by {
        if id != row.id {
            assert(nodes.dom().contains(id));
        }
    }
}

/// A row with the name that it had keeps names unique.
proof fn lemma_same_place(nodes: Map<TupId, RowText>, row: RowText)
    requires
        nodes.dom().contains(row.id),
        nodes[row.id].dir == row.dir,
        nodes[row.id].name == row.name,
    ensures
        unique_names(nodes) ==> unique_names(nodes.insert(row.id, row)),
{
    if unique_names(nodes) {
        assert forall|x: TupId| #[trigger] is_named(nodes, row.dir, row.name, x) implies x
            == row.id by {
            assert(nodes.dom().contains(x));
        }
        lemma_put_unique(nodes, row);
    }
}

proof fn lemma_new_row(
    t: TablesText,
    dir: TupId,
    name: Seq<char>,
    node_type: NodeType,
    mtime: i64,
    srcid: i64,
    display: Option<Seq<char>>,
    flags: Option<Seq<char>>,
)
    requires
        t.new_row(dir, name, node_type, mtime, 0, srcid, display, flags) is Ok,
    ensures
        ({
            let row = t.new_row(dir, name, node_type, mtime, 0, srcid, display, flags)->Ok_0;
            &&& !t.nodes.dom().contains(row.id)
            &&& keeps(t, t.put(row))
        }),
{
    let row = t.new_row(dir, name, node_type, mtime, 0, srcid, display, flags)->Ok_0;
    new_identifier_is_new(t.nodes);
    lemma_found(t.nodes, dir, name);
    if unique_names(t.nodes) {
        lemma_put_unique(t.nodes, row);
    }
}

pub proof fn lemma_link_inputs_keep(t: TablesText, dir: TupId, cmd: TupId, names: Seq<Seq<char>>)
    ensures
        t.link_inputs(dir, cmd, names).nodes == t.nodes,
        t.link_inputs(dir, cmd, names).flags == t.flags,
    decreases names.len(),
{
    if names.len() > 0 {
        lemma_link_inputs_keep(t, dir, cmd, names.drop_last());
    }
}

pub proof fn lemma_link_order_only_keep(t: TablesText, dir: TupId, cmd: TupId, names: Seq<Seq<char>>)
    ensures
        t.link_order_only(dir, cmd, names).nodes == t.nodes,
        t.link_order_only(dir, cmd, names).flags == t.flags,
    decreases names.len(),
{
    if names.len() > 0 {
        lemma_link_order_only_keep(t, dir, cmd, names.drop_last());
    }
}

proof fn lemma_link_output_keeps(
    t: TablesText,
    dir: TupId,
    cmd: TupId,
    name: Seq<char>,
    adopt: bool,
)
    requires
        unique_names(t.nodes),
        t.link_output(dir, cmd, name, adopt) is Ok,
    ensures
        keeps(t, t.link_output(dir, cmd, name, adopt)->Ok_0),
{
    lemma_found(t.nodes, dir, name);
    match t.select(dir, name) {
        Some(id) => {
            let row = t.nodes[id];
            assert(t.nodes.dom().contains(id));
            if row.node_type == NodeType::Generated || row.node_type == NodeType::GhostNode {
                let a = if row.node_type == NodeType::GhostNode {
                    t.set_type(id, NodeType::Generated)
                } else {
                    t
                };
                lemma_same_place(t.nodes, RowText { node_type: NodeType::Generated, ..row });
                assert(keeps(t, a));
                let b = if adopt && row.srcid != cmd.0 {
                    a.set_srcid(id, cmd.0)
                } else {
                    a
                };
                lemma_same_place(a.nodes, RowText { srcid: cmd.0, ..a.nodes[id] });
                assert(keeps(t, b));
            }
        },
        None => {
            lemma_new_row(t, dir, name, NodeType::Generated, -1i64, cmd.0, None, None);
        },
    }
}

pub proof fn lemma_link_outputs_keep(
    t: TablesText,
    dir: TupId,
    cmd: TupId,
    names: Seq<Seq<char>>,
    adopt: bool,
)
    requires
        unique_names(t.nodes),
    ensures
        keeps(t, t.link_outputs(dir, cmd, names, adopt).0),
    decreases names.len(),
{
    if names.len() > 0 {
        lemma_link_outputs_keep(t, dir, cmd, names.drop_last(), adopt);
        let (u, e) = t.link_outputs(dir, cmd, names.drop_last(), adopt);
        if e is None && u.link_output(dir, cmd, names.last(), adopt) is Ok {
            lemma_link_output_keeps(u, dir, cmd, names.last(), adopt);
            lemma_keeps_trans(t, u, u.link_output(dir, cmd, names.last(), adopt)->Ok_0);
        }
    }
}

proof fn lemma_link_rule_keeps(t: TablesText, dir: TupId, cmd: TupId, rule: StoreText)
    requires
        unique_names(t.nodes),
    ensures
        keeps(t, t.link_rule(dir, cmd, rule).0),
{
    let a = t.link_inputs(dir, cmd, rule.inputs);
    let b = a.link_order_only(dir, cmd, rule.order_only_inputs);
    lemma_link_inputs_keep(t, dir, cmd, rule.inputs);
    lemma_link_order_only_keep(a, dir, cmd, rule.order_only_inputs);
    assert(keeps(t, b));
    lemma_link_outputs_keep(b, dir, cmd, rule.outputs, true);
    let (c, e) = b.link_outputs(dir, cmd, rule.outputs, true);
    lemma_keeps_trans(t, b, c);
    if e is None {
        lemma_link_outputs_keep(c, dir, cmd, rule.extra_outputs, false);
        lemma_keeps_trans(t, c, c.link_outputs(dir, cmd, rule.extra_outputs, false).0);
    }
}

/// Two rules for the same command show it alike and give it the same flags.
pub open spec fn agree(a: StoreText, b: StoreText) -> bool {
    a.command == b.command ==> a.display == b.display && a.flags == b.flags
}

pub open spec fn rules_agree(rules: Seq<StoreText>) -> bool {
    forall|i: int, j: int|
        0 <= i < rules.len() && 0 <= j < rules.len() ==> agree(
            #[trigger] rules[i],
            #[trigger] rules[j],
        )
}

proof fn lemma_edit_keeps_unique(t: TablesText, id: TupId, row: RowText)
    requires
        unique_names(t.nodes),
        t.nodes.dom().contains(id),
        row.id == id,
        row.dir == t.nodes[id].dir,
        row.name == t.nodes[id].name,
    ensures
        unique_names(t.put(row).nodes),
{
    lemma_same_place(t.nodes, row);
}

/// The command of a rule is chosen: names stay unique, the commands of other
/// rules stay as they are, and this rule has its command.
pub proof fn lemma_choose(w: World, dir: TupId, rule: StoreText)
    requires
        unique_names(w.tables.nodes),
    ensures
        ({
            let (u, c) = w.choose_command(dir, rule);
            &&& unique_names(u.tables.nodes)
            &&& forall|id: TupId, q: StoreText|
                agree(q, rule) && #[trigger] has_command(w.tables, dir, id, q) ==> has_command(
                    u.tables,
                    dir,
                    id,
                    q,
                )
            &&& c is Node ==> has_command(u.tables, dir, c->Node_0, rule)
            &&& forall|id: TupId| #[trigger]
                has_command(w.tables, dir, id, rule) ==> u == w && c == Chosen::Node(id, true)
        }),
{
    let (u, c) = w.choose_command(dir, rule);
    let t = w.tables;
    lemma_found(t.nodes, dir, rule.command);
    assert forall|id: TupId| #[trigger] has_command(t, dir, id, rule) implies u == w && c
        == Chosen::Node(id, true) by {
        assert(is_named(t.nodes, dir, rule.command, id));
        a_name_finds_its_node(t.nodes, dir, rule.command, id);
    }
    match t.select(dir, rule.command) {
        None => {
            if c is Node {
                lemma_new_row(t, dir, rule.command, NodeType::Cmd, -1i64, -1i64, rule.display, rule.flags);
                let row = t.new_row(
                    dir,
                    rule.command,
                    NodeType::Cmd,
                    -1i64,
                    0,
                    -1i64,
                    rule.display,
                    rule.flags,
                )->Ok_0;
                assert(keeps(t, t.put(row)));
                assert forall|id: TupId, q: StoreText|
                    agree(q, rule) && #[trigger] has_command(t, dir, id, q) implies has_command(
                    u.tables,
                    dir,
                    id,
                    q,
                ) by {
                    assert(t.nodes.dom().contains(id));
                }
            }
        },
        Some(x) => {
            let row = t.nodes[x];
            assert(t.nodes.dom().contains(x));
            assert(row.id == x);
            if row.node_type == NodeType::Cmd || row.node_type == NodeType::GhostNode {
                let r0 = RowText { node_type: NodeType::Cmd, ..row };
                let r1 = RowText { display: rule.display, ..r0 };
                let r2 = RowText { flags: rule.flags, ..r1 };
                lemma_edit_keeps_unique(t, x, r2);
                assert(u.tables.nodes =~= t.nodes.insert(x, r2));
                assert forall|id: TupId, q: StoreText|
                    agree(q, rule) && #[trigger] has_command(t, dir, id, q) implies has_command(
                    u.tables,
                    dir,
                    id,
                    q,
                ) by {
                    if id == x {
                        assert(q.command == rule.command);
                    }
                }
            }
        },
    }
}

/// One rule is stored: names stay unique, commands of rules that agree with it
/// stay, the rule has its command, and where it had it before nothing becomes
/// pending.
pub proof fn lemma_store_rule(w: World, dir: TupId, rule: StoreText)
    requires
        unique_names(w.tables.nodes),
    ensures
        ({
            let (u, s, e) = w.store_rule(dir, rule);
            &&& unique_names(u.tables.nodes)
            &&& forall|id: TupId, q: StoreText|
                agree(q, rule) && #[trigger] has_command(w.tables, dir, id, q) ==> has_command(
                    u.tables,
                    dir,
                    id,
                    q,
                )
            &&& s is Some ==> s->0 == stored(dir, s->0.cmd_id, rule) && has_command(
                u.tables,
                dir,
                s->0.cmd_id,
                rule,
            )
            &&& forall|id: TupId| #[trigger]
                has_command(w.tables, dir, id, rule) ==> {
                    &&& u.tables.flags == w.tables.flags
                    &&& e is None ==> s == Some(stored(dir, id, rule))
                }
        }),
{
    lemma_choose(w, dir, rule);
    let (v, c) = w.choose_command(dir, rule);
    match c {
        Chosen::Node(cmd, existed) => {
            let t = if existed {
                v.tables.without_rule_links(cmd)
            } else {
                v.tables
            };
            lemma_link_rule_keeps(t, dir, cmd, rule);
            let u = t.link_rule(dir, cmd, rule).0;
            assert forall|id: TupId, q: StoreText| #[trigger]
                has_command(v.tables, dir, id, q) implies has_command(u, dir, id, q) by {
                assert(t.nodes.dom().contains(id));
            }
            assert(has_command(v.tables, dir, cmd, rule));
        },
        _ => {},
    }
}

/// What storing rules does to the commands of those rules.
pub proof fn lemma_store_all(w: World, dir: TupId, rules: Seq<StoreText>)
    requires
        unique_names(w.tables.nodes),
        rules_agree(rules),
    ensures
        ({
            let (u, done, e) = w.store_all(dir, rules);
            &&& unique_names(u.tables.nodes)
            &&& done.len() <= rules.len()
            &&& forall|id: TupId, q: StoreText|
                (forall|i: int| 0 <= i < rules.len() ==> agree(q, #[trigger] rules[i]))
                    && #[trigger] has_command(w.tables, dir, id, q) ==> has_command(
                    u.tables,
                    dir,
                    id,
                    q,
                )
            &&& done.len() == rules.len() ==> forall|i: int|
                0 <= i < done.len() ==> {
                    &&& #[trigger] done[i] == stored(dir, done[i].cmd_id, rules[i])
                    &&& has_command(u.tables, dir, done[i].cmd_id, rules[i])
                }
        }),
    decreases rules.len(),
{
    if rules.len() > 0 {
        let before = rules.drop_last();
        assert(rules_agree(before)) by {
            assert forall|i: int, j: int|
                0 <= i < before.len() && 0 <= j < before.len() implies agree(
                #[trigger] before[i],
                #[trigger] before[j],
            ) by {
                assert(before[i] == rules[i] && before[j] == rules[j]);
            }
        }
        lemma_store_all(w, dir, before);
        let (v, done, e) = w.store_all(dir, before);
        let last = rules.last();
        assert(last == rules[rules.len() - 1]);
        assert forall|id: TupId, q: StoreText|
            (forall|i: int| 0 <= i < rules.len() ==> agree(q, #[trigger] rules[i]))
                && #[trigger] has_command(w.tables, dir, id, q) implies has_command(
            v.tables,
            dir,
            id,
            q,
        ) by {
            assert forall|i: int| 0 <= i < before.len() implies agree(q, #[trigger] before[i]) by {
                assert(before[i] == rules[i]);
            }
        }
        if e is None {
            lemma_store_rule(v, dir, last);
            let (u, s, f) = v.store_rule(dir, last);
            let all = w.store_all(dir, rules).1;
            if all.len() == rules.len() {
                assert(s is Some);
                assert forall|i: int| 0 <= i < all.len() implies {
                    &&& #[trigger] all[i] == stored(dir, all[i].cmd_id, rules[i])
                    &&& has_command(u.tables, dir, all[i].cmd_id, rules[i])
                } by {
                    if i < done.len() {
                        assert(all[i] == done[i]);
                        assert(before[i] == rules[i]);
                        assert(agree(rules[i], last));
                        assert(has_command(v.tables, dir, done[i].cmd_id, before[i]));
                    }
                }
            }
        }
    }
}

/// Rules whose commands are all there make nothing pending.
proof fn lemma_store_known(w: World, dir: TupId, rules: Seq<StoreText>, known: Seq<StoredText>)
    requires
        unique_names(w.tables.nodes),
        rules_agree(rules),
        known.len() == rules.len(),
        forall|i: int|
            0 <= i < known.len() ==> {
                &&& #[trigger] known[i] == stored(dir, known[i].cmd_id, rules[i])
                &&& has_command(w.tables, dir, known[i].cmd_id, rules[i])
            },
    ensures
        w.store_all(dir, rules).0.tables.flags == w.tables.flags,
        w.store_all(dir, rules).2 is None ==> w.store_all(dir, rules).1 == known,
        unique_names(w.store_all(dir, rules).0.tables.nodes),
    decreases rules.len(),
{
    if rules.len() > 0 {
        let before = rules.drop_last();
        let k = known.drop_last();
        assert forall|i: int, j: int| 0 <= i < before.len() && 0 <= j < before.len() implies agree(
            #[trigger] before[i],
            #[trigger] before[j],
        ) by {
            assert(before[i] == rules[i] && before[j] == rules[j]);
        }
        assert forall|i: int| 0 <= i < k.len() implies {
            &&& #[trigger] k[i] == stored(dir, k[i].cmd_id, before[i])
            &&& has_command(w.tables, dir, k[i].cmd_id, before[i])
        } by {
            assert(k[i] == known[i] && before[i] == rules[i]);
        }
        lemma_store_known(w, dir, before, k);
        lemma_store_all(w, dir, before);
        let (v, done, e) = w.store_all(dir, before);
        let last = rules.last();
        let n = rules.len() - 1;
        assert(known[n] == stored(dir, known[n].cmd_id, rules[n]));
        assert forall|i: int| 0 <= i < before.len() implies agree(last, #[trigger] before[i]) by {
            assert(agree(rules[n], rules[i]));
        }
        assert(has_command(w.tables, dir, known[n].cmd_id, last));
        assert(has_command(v.tables, dir, known[n].cmd_id, last));
        if e is None {
            lemma_store_rule(v, dir, last);
            assert(known =~= k.push(known[n]));
        }
    } else {
        assert(known =~= Seq::empty());
    }
}

// ------------------------------------------------ what goes

pub proof fn lemma_drop_rows(t: TablesText, rows: Seq<RowText>)
    ensures
        t.drop_rows(rows).flags == t.flags,
        unique_names(t.nodes) ==> unique_names(t.drop_rows(rows).nodes),
        forall|id: TupId| #[trigger]
            t.drop_rows(rows).nodes.dom().contains(id) <==> t.nodes.dom().contains(id)
                && forall|i: int| 0 <= i < rows.len() ==> (#[trigger] rows[i]).id != id,
        forall|id: TupId| #[trigger]
            t.drop_rows(rows).nodes.dom().contains(id) ==> t.drop_rows(rows).nodes[id]
                == t.nodes[id],
    decreases rows.len(),
{
    if rows.len() > 0 {
        let before = rows.drop_last();
        lemma_drop_rows(t, before);
        let u = t.drop_rows(before);
        let v = t.drop_rows(rows);
        assert(v.nodes == u.nodes.remove(rows.last().id));
        assert forall|id: TupId| #[trigger]
            v.nodes.dom().contains(id) <==> t.nodes.dom().contains(id) && forall|i: int|
                0 <= i < rows.len() ==> (#[trigger] rows[i]).id != id by {
            if v.nodes.dom().contains(id) {
                assert(u.nodes.dom().contains(id));
                assert forall|i: int| 0 <= i < rows.len() implies (#[trigger] rows[i]).id != id by {
                    if i < before.len() {
                        assert(before[i] == rows[i]);
                    }
                }
            }
            if t.nodes.dom().contains(id) && forall|i: int|
                0 <= i < rows.len() ==> (#[trigger] rows[i]).id != id {
                assert forall|i: int| 0 <= i < before.len() implies (#[trigger] before[i]).id
                    != id by {
                    assert(before[i] == rows[i]);
                }
                assert(rows[rows.len() - 1].id != id);
                assert(u.nodes.dom().contains(id));
            }
        }
        assert forall|id: TupId| #[trigger] v.nodes.dom().contains(id) implies v.nodes[id]
            == t.nodes[id] by {
            assert(u.nodes.dom().contains(id));
        }
        if unique_names(t.nodes) {
            assert forall|a: TupId, b: TupId|
                #![trigger v.nodes.dom().contains(a), v.nodes.dom().contains(b)]
                v.nodes.dom().contains(a) && v.nodes.dom().contains(b) && v.nodes[a].dir
                    == v.nodes[b].dir && v.nodes[a].name == v.nodes[b].name implies a == b by {
                assert(u.nodes.dom().contains(a) && u.nodes.dom().contains(b));
            }
            assert forall|id: TupId| #[trigger] v.nodes.dom().contains(id) implies v.nodes[id].id
                == id by {
                assert(u.nodes.dom().contains(id));
            }
        }
    }
}

/// What is in the list of what goes: a row of the directory that is a stale
/// command or a generated file.
spec fn may_go(rows: Seq<RowText>, active: Set<TupId>, r: RowText) -> bool {
    rows.contains(r) && (is_stale(r, active) || r.node_type == NodeType::Generated)
}

proof fn lemma_outputs_of(rows: Seq<RowText>, cmd: TupId, active: Set<TupId>)
    ensures
        forall|i: int|
            0 <= i < outputs_of(rows, cmd).len() ==> may_go(
                rows,
                active,
                #[trigger] outputs_of(rows, cmd)[i],
            ),
    decreases rows.len(),
{
    if rows.len() > 0 {
        let before = rows.drop_last();
        lemma_outputs_of(before, cmd, active);
        let s = outputs_of(rows, cmd);
        let b = outputs_of(before, cmd);
        assert forall|i: int| 0 <= i < s.len() implies may_go(rows, active, #[trigger] s[i]) by {
            if i < b.len() {
                assert(s[i] == b[i]);
                assert(may_go(before, active, b[i]));
                let k = choose|k: int| 0 <= k < before.len() && before[k] == b[i];
                assert(rows[k] == s[i]);
            } else {
                assert(rows[rows.len() - 1] == s[i]);
            }
        }
    }
}

proof fn lemma_stale_rows(all: Seq<RowText>, n: int, active: Set<TupId>)
    requires
        0 <= n <= all.len(),
    ensures
        ({
            let s = stale_rows(all, all.take(n), active);
            &&& forall|i: int| 0 <= i < s.len() ==> may_go(all, active, #[trigger] s[i])
            &&& forall|k: int|
                0 <= k < n && is_stale(#[trigger] all[k], active) ==> s.contains(all[k])
        }),
    decreases n,
{
    let s = stale_rows(all, all.take(n), active);
    if n > 0 {
        lemma_stale_rows(all, n - 1, active);
        assert(all.take(n).drop_last() =~= all.take(n - 1));
        let b = stale_rows(all, all.take(n - 1), active);
        let row = all[n - 1];
        assert(all.take(n).last() == row);
        let made = outputs_of(all, row.id);
        lemma_outputs_of(all, row.id, active);
        if is_stale(row, active) {
            assert(s == (b + made).push(row));
            assert forall|i: int| 0 <= i < s.len() implies may_go(all, active, #[trigger] s[i]) by {
                if i < b.len() {
                    assert(s[i] == b[i]);
                } else if i < b.len() + made.len() {
                    assert(s[i] == made[i - b.len()]);
                } else {
                    assert(s[i] == row);
                    assert(all[n - 1] == row);
                }
            }
            assert forall|k: int| 0 <= k < n && is_stale(#[trigger] all[k], active) implies s.contains(
                all[k],
            ) by {
                if k < n - 1 {
                    assert(b.contains(all[k]));
                    let m = choose|m: int| 0 <= m < b.len() && b[m] == all[k];
                    assert(s[m] == all[k]);
                } else {
                    assert(s[s.len() - 1] == row);
                }
            }
        } else {
            assert forall|k: int| 0 <= k < n && is_stale(#[trigger] all[k], active) implies s.contains(
                all[k],
            ) by {
                assert(k < n - 1);
            }
        }
    } else {
        assert(all.take(0) =~= Seq::empty());
    }
}

proof fn lemma_orphans(rows: Seq<RowText>, active: Set<TupId>, rules: Seq<StoreText>)
    ensures
        forall|i: int|
            0 <= i < orphans(rows, active, rules).len() ==> may_go(
                rows,
                active,
                #[trigger] orphans(rows, active, rules)[i],
            ),
    decreases rows.len(),
{
    if rows.len() > 0 {
        let before = rows.drop_last();
        lemma_orphans(before, active, rules);
        let s = orphans(rows, active, rules);
        let b = orphans(before, active, rules);
        assert forall|i: int| 0 <= i < s.len() implies may_go(rows, active, #[trigger] s[i]) by {
            if i < b.len() {
                assert(s[i] == b[i]);
                assert(may_go(before, active, b[i]));
                let k = choose|k: int| 0 <= k < before.len() && before[k] == b[i];
                assert(rows[k] == s[i]);
            } else {
                assert(rows[rows.len() - 1] == s[i]);
            }
        }
    }
}

pub proof fn lemma_rows_in(t: TablesText, dir: TupId)
    requires
        unique_names(t.nodes),
    ensures
        forall|r: RowText| #[trigger]
            t.rows_in(dir).contains(r) <==> t.nodes.dom().contains(r.id) && t.nodes[r.id] == r
                && r.dir == dir,
{
    let s = nodes_in(t.nodes, dir);
    let ids = ascending(s);
    ascending_lists(s);
    let rows = t.rows_in(dir);
    assert forall|r: RowText| #[trigger]
        rows.contains(r) <==> t.nodes.dom().contains(r.id) && t.nodes[r.id] == r && r.dir == dir by {
        if rows.contains(r) {
            let k = choose|k: int| 0 <= k < rows.len() && rows[k] == r;
            assert(ids.contains(ids[k]));
            assert(s.contains(ids[k]));
            assert(t.nodes.dom().contains(ids[k]));
        }
        if t.nodes.dom().contains(r.id) && t.nodes[r.id] == r && r.dir == dir {
            assert(s.contains(r.id));
            assert(ids.contains(r.id));
            let k = choose|k: int| 0 <= k < ids.len() && ids[k] == r.id;
            assert(rows[k] == r);
        }
    }
}

/// What goes from a directory: every command that is not active, and apart from
/// such commands only generated files.
proof fn lemma_leftovers(t: TablesText, dir: TupId, active: Set<TupId>, rules: Seq<StoreText>)
    requires
        unique_names(t.nodes),
    ensures
        ({
            let gone = t.leftovers(dir, active, rules);
            &&& forall|i: int|
                0 <= i < gone.len() ==> may_go(t.rows_in(dir), active, #[trigger] gone[i])
            &&& forall|id: TupId| #[trigger]
                t.nodes.dom().contains(id) && t.nodes[id].dir == dir && t.nodes[id].node_type
                    == NodeType::Cmd && !active.contains(id) ==> gone.contains(t.nodes[id])
        }),
{
    let rows = t.rows_in(dir);
    lemma_rows_in(t, dir);
    lemma_stale_rows(rows, rows.len() as int, active);
    lemma_orphans(rows, active, rules);
    assert(rows.take(rows.len() as int) =~= rows);
    let a = stale_rows(rows, rows, active);
    let b = orphans(rows, active, rules);
    let gone = t.leftovers(dir, active, rules);
    assert forall|i: int| 0 <= i < gone.len() implies may_go(rows, active, #[trigger] gone[i]) by {
        if i < a.len() {
            assert(gone[i] == a[i]);
        } else {
            assert(gone[i] == b[i - a.len()]);
        }
    }
    assert forall|id: TupId| #[trigger]
        t.nodes.dom().contains(id) && t.nodes[id].dir == dir && t.nodes[id].node_type
            == NodeType::Cmd && !active.contains(id) implies gone.contains(t.nodes[id]) by {
        let r = t.nodes[id];
        assert(r.id == id);
        assert(rows.contains(r));
        let k = choose|k: int| 0 <= k < rows.len() && rows[k] == r;
        assert(is_stale(rows[k], active));
        assert(a.contains(r));
        let m = choose|m: int| 0 <= m < a.len() && a[m] == r;
        assert(gone[m] == r);
    }
}

pub proof fn lemma_unique_after_all(w: World, dir: TupId, rules: Seq<StoreText>)
    requires
        unique_names(w.tables.nodes),
    ensures
        unique_names(w.store_all(dir, rules).0.tables.nodes),
    decreases rules.len(),
{
    if rules.len() > 0 {
        lemma_unique_after_all(w, dir, rules.drop_last());
        let (v, done, e) = w.store_all(dir, rules.drop_last());
        if e is None {
            lemma_store_rule(v, dir, rules.last());
        }
    }
}

/// After the rules of a directory were stored, each of its commands comes from
/// one of them.
pub proof fn every_command_has_a_rule(w: World, dir: TupId, rules: Seq<StoreText>, id: TupId)
    requires
        unique_names(w.tables.nodes),
        w.store_rules(dir, rules).1 is Ok,
        w.store_rules(dir, rules).0.tables.nodes.dom().contains(id),
        w.store_rules(dir, rules).0.tables.nodes[id].dir == dir,
        w.store_rules(dir, rules).0.tables.nodes[id].node_type == NodeType::Cmd,
    ensures
        command_ids(w.store_rules(dir, rules).1->Ok_0.0).contains(id),
{
    lemma_unique_after_all(w, dir, rules);
    let (v, done, e) = w.store_all(dir, rules);
    let active = command_ids(done);
    let gone = v.tables.leftovers(dir, active, rules);
    lemma_leftovers(v.tables, dir, active, rules);
    lemma_drop_rows(v.tables, gone);
    if !active.contains(id) {
        assert(v.tables.nodes.dom().contains(id));
        let r = v.tables.nodes[id];
        assert(gone.contains(r));
        let k = choose|k: int| 0 <= k < gone.len() && gone[k] == r;
        assert(gone[k].id == id);
    }
}

/// After the rules of a directory were stored, each of them has its command in the
/// tables.
///
/// This leaves out rules whose name belonged to something that is no command,
/// and rules that show one command in different ways.
pub proof fn every_rule_has_a_command(w: World, dir: TupId, rules: Seq<StoreText>)
    requires
        unique_names(w.tables.nodes),
        rules_agree(rules),
        w.store_rules(dir, rules).1 is Ok,
        w.store_rules(dir, rules).1->Ok_0.0.len() == rules.len(),
    ensures
        ({
            let (v, r) = w.store_rules(dir, rules);
            let done = r->Ok_0.0;
            forall|i: int|
                0 <= i < rules.len() ==> {
                    &&& #[trigger] done[i] == stored(dir, done[i].cmd_id, rules[i])
                    &&& has_command(v.tables, dir, done[i].cmd_id, rules[i])
                }
        }),
{
    lemma_store_all(w, dir, rules);
    let (v0, done, e) = w.store_all(dir, rules);
    let active = command_ids(done);
    let gone = v0.tables.leftovers(dir, active, rules);
    lemma_leftovers(v0.tables, dir, active, rules);
    lemma_rows_in(v0.tables, dir);
    lemma_drop_rows(v0.tables, gone);
    let v = w.store_rules(dir, rules).0;
    assert forall|i: int| 0 <= i < rules.len() implies {
        &&& #[trigger] done[i] == stored(dir, done[i].cmd_id, rules[i])
        &&& has_command(v.tables, dir, done[i].cmd_id, rules[i])
    } by {
        let id = done[i].cmd_id;
        assert(has_command(v0.tables, dir, id, rules[i]));
        assert(active.contains(id));
        assert forall|k: int| 0 <= k < gone.len() implies (#[trigger] gone[k]).id != id by {
            assert(may_go(v0.tables.rows_in(dir), active, gone[k]));
            if gone[k].id == id {
                assert(v0.tables.rows_in(dir).contains(gone[k]));
                assert(gone[k] == v0.tables.nodes[id]);
            }
        }
        assert(v.tables.nodes.dom().contains(id));
    }
}

// ------------------------------------------------ rules that are stored again

/// Whether a directory holds no command that is not active, and no generated file
/// of an active command that no rule declares.
pub open spec fn is_clean(
    t: TablesText,
    dir: TupId,
    active: Set<TupId>,
    rules: Seq<StoreText>,
) -> bool {
    forall|id: TupId| #[trigger]
        t.nodes.dom().contains(id) && t.nodes[id].dir == dir ==> !is_stale(t.nodes[id], active)
            && !is_orphan(t.nodes[id], active, rules)
}

proof fn lemma_orphans_listed(rows: Seq<RowText>, active: Set<TupId>, rules: Seq<StoreText>, k: int)
    requires
        0 <= k < rows.len(),
        is_orphan(rows[k], active, rules),
    ensures
        orphans(rows, active, rules).contains(rows[k]),
    decreases rows.len(),
{
    let before = rows.drop_last();
    let b = orphans(before, active, rules);
    let s = orphans(rows, active, rules);
    if k < before.len() {
        assert(before[k] == rows[k]);
        lemma_orphans_listed(before, active, rules, k);
        let m = choose|m: int| 0 <= m < b.len() && b[m] == rows[k];
        assert(s[m] == rows[k]);
    } else {
        assert(s[b.len() as int] == rows[k]);
    }
}

/// Where nothing is stale and nothing is an orphan, nothing goes.
proof fn lemma_nothing_goes(
    all: Seq<RowText>,
    rows: Seq<RowText>,
    active: Set<TupId>,
    rules: Seq<StoreText>,
)
    requires
        forall|i: int|
            0 <= i < rows.len() ==> !is_stale(#[trigger] rows[i], active) && !is_orphan(
                rows[i],
                active,
                rules,
            ),
    ensures
        stale_rows(all, rows, active) == Seq::<RowText>::empty(),
        orphans(rows, active, rules) == Seq::<RowText>::empty(),
    decreases rows.len(),
{
    if rows.len() > 0 {
        let before = rows.drop_last();
        assert forall|i: int| 0 <= i < before.len() implies !is_stale(#[trigger] before[i], active)
            && !is_orphan(before[i], active, rules) by {
            assert(before[i] == rows[i]);
        }
        lemma_nothing_goes(all, before, active, rules);
        assert(rows.last() == rows[rows.len() - 1]);
    }
}

proof fn lemma_clean_drops_nothing(
    t: TablesText,
    dir: TupId,
    active: Set<TupId>,
    rules: Seq<StoreText>,
)
    requires
        unique_names(t.nodes),
        is_clean(t, dir, active, rules),
    ensures
        t.leftovers(dir, active, rules) == Seq::<RowText>::empty(),
{
    let rows = t.rows_in(dir);
    lemma_rows_in(t, dir);
    assert forall|i: int| 0 <= i < rows.len() implies !is_stale(#[trigger] rows[i], active)
        && !is_orphan(rows[i], active, rules) by {
        assert(rows.contains(rows[i]));
        assert(t.nodes.dom().contains(rows[i].id));
    }
    lemma_nothing_goes(rows, rows, active, rules);
    assert(t.leftovers(dir, active, rules) =~= Seq::<RowText>::empty());
}

/// Whether every node has an identifier above 0.
pub open spec fn are_numbered(nodes: Map<TupId, RowText>) -> bool {
    forall|x: TupId| #[trigger] nodes.dom().contains(x) ==> x.0 >= 1
}

/// A new node gets an identifier above 0 where every node has one.
pub proof fn new_identifiers_are_above_zero(nodes: Map<TupId, RowText>)
    requires
        are_numbered(nodes),
        new_id(nodes) is Some,
    ensures
        new_id(nodes) matches Some(id) && id.0 >= 1,
{
    if exists|id: TupId| #[trigger] is_greatest(nodes, id) {
        let g = choose|id: TupId| #[trigger] is_greatest(nodes, id);
        assert(is_greatest(nodes, g));
        assert(nodes.dom().contains(g));
    }
}

/// A new database numbers its nodes from 1.
pub proof fn a_new_database_is_numbered()
    ensures
        are_numbered(initial_tables().nodes),
{
}

/// The identifiers above 0 that no node has.
pub open spec fn free_ids(nodes: Map<TupId, RowText>) -> Set<TupId> {
    Set::new(|x: TupId| x.0 >= 1 && !nodes.dom().contains(x))
}

proof fn lemma_least_free(nodes: Map<TupId, RowText>, x: TupId)
    requires
        free_ids(nodes).contains(x),
    ensures
        exists|id: TupId| #[trigger] is_least_free(nodes, id),
    decreases x.0,
{
    if !is_least_free(nodes, x) {
        let y = choose|y: TupId| 1 <= y.0 < x.0 && !#[trigger] nodes.dom().contains(y);
        lemma_least_free(nodes, y);
    }
}

/// Where an identifier above 0 is free, a new node gets one.
pub proof fn a_free_identifier_is_given(nodes: Map<TupId, RowText>, x: TupId)
    requires
        free_ids(nodes).contains(x),
    ensures
        new_id(nodes) is Some,
{
    lemma_least_free(nodes, x);
}

/// Whether nodes stay where they are while others come.
spec fn extends(t: TablesText, u: TablesText) -> bool {
    &&& forall|x: TupId| #[trigger]
        t.nodes.dom().contains(x) ==> u.nodes.dom().contains(x) && u.nodes[x].dir == t.nodes[x].dir
            && u.nodes[x].name == t.nodes[x].name
    &&& are_numbered(t.nodes) ==> are_numbered(u.nodes)
}

proof fn lemma_extends_trans(a: TablesText, b: TablesText, c: TablesText)
    requires
        extends(a, b),
        extends(b, c),
    ensures
        extends(a, c),
{
    assert forall|x: TupId| #[trigger] a.nodes.dom().contains(x) implies c.nodes.dom().contains(x)
        && c.nodes[x].dir == a.nodes[x].dir && c.nodes[x].name == a.nodes[x].name by {
        assert(b.nodes.dom().contains(x));
    }
}

/// What is found stays found.
proof fn lemma_stays_found(t: TablesText, u: TablesText, dir: TupId, name: Seq<char>)
    requires
        extends(t, u),
        t.select(dir, name) is Some,
    ensures
        u.select(dir, name) is Some,
{
    let id = t.select(dir, name)->0;
    assert(is_named(t.nodes, dir, name, id));
    assert(is_named(u.nodes, dir, name, id));
}

/// A new node with a row of its own.
proof fn lemma_put_extends(t: TablesText, row: RowText)
    requires
        new_id(t.nodes) == Some(row.id),
    ensures
        extends(t, t.put(row)),
        is_named(t.put(row).nodes, row.dir, row.name, row.id),
{
    new_identifier_is_new(t.nodes);
    if are_numbered(t.nodes) {
        new_identifiers_are_above_zero(t.nodes);
    }
}

/// An output that was linked is found.
proof fn lemma_output_found(t: TablesText, dir: TupId, cmd: TupId, name: Seq<char>, adopt: bool)
    requires
        unique_names(t.nodes),
        t.link_output(dir, cmd, name, adopt) is Ok,
    ensures
        extends(t, t.link_output(dir, cmd, name, adopt)->Ok_0),
        t.link_output(dir, cmd, name, adopt)->Ok_0.select(dir, name) is Some,
{
    lemma_found(t.nodes, dir, name);
    let u = t.link_output(dir, cmd, name, adopt)->Ok_0;
    match t.select(dir, name) {
        Some(id) => {
            assert(t.nodes.dom().contains(id) && t.nodes[id].id == id);
            assert(u.nodes.dom() =~= t.nodes.dom());
            assert(extends(t, u));
            lemma_stays_found(t, u, dir, name);
        },
        None => {
            let row = t.new_row(
                dir,
                name,
                NodeType::Generated,
                -1i64,
                0,
                cmd.0,
                None,
                None,
            )->Ok_0;
            lemma_put_extends(t, row);
            assert(u.nodes == t.put(row).nodes);
            assert(is_named(u.nodes, dir, name, row.id));
        },
    }
}

proof fn lemma_outputs_found(
    t: TablesText,
    dir: TupId,
    cmd: TupId,
    names: Seq<Seq<char>>,
    adopt: bool,
)
    requires
        unique_names(t.nodes),
    ensures
        ({
            let (u, e) = t.link_outputs(dir, cmd, names, adopt);
            &&& extends(t, u)
            &&& e is None ==> forall|i: int|
                0 <= i < names.len() ==> u.select(dir, #[trigger] names[i]) is Some
        }),
    decreases names.len(),
{
    if names.len() > 0 {
        let before = names.drop_last();
        lemma_outputs_found(t, dir, cmd, before, adopt);
        lemma_link_outputs_keep(t, dir, cmd, before, adopt);
        let (v, e) = t.link_outputs(dir, cmd, before, adopt);
        if e is None && v.link_output(dir, cmd, names.last(), adopt) is Ok {
            let u = v.link_output(dir, cmd, names.last(), adopt)->Ok_0;
            lemma_output_found(v, dir, cmd, names.last(), adopt);
            lemma_extends_trans(t, v, u);
            assert forall|i: int| 0 <= i < names.len() implies u.select(
                dir,
                #[trigger] names[i],
            ) is Some by {
                if i < before.len() {
                    assert(before[i] == names[i]);
                    lemma_stays_found(v, u, dir, names[i]);
                }
            }
        }
    }
}

/// Whether the outputs of a rule are all found.
spec fn outputs_found(t: TablesText, dir: TupId, rule: StoreText) -> bool {
    &&& forall|i: int|
        0 <= i < rule.outputs.len() ==> t.select(dir, #[trigger] rule.outputs[i]) is Some
    &&& forall|i: int|
        0 <= i < rule.extra_outputs.len() ==> t.select(dir, #[trigger] rule.extra_outputs[i])
            is Some
}

proof fn lemma_outputs_stay(t: TablesText, u: TablesText, dir: TupId, rule: StoreText)
    requires
        extends(t, u),
        outputs_found(t, dir, rule),
    ensures
        outputs_found(u, dir, rule),
{
    assert forall|i: int| 0 <= i < rule.outputs.len() implies u.select(
        dir,
        #[trigger] rule.outputs[i],
    ) is Some by {
        lemma_stays_found(t, u, dir, rule.outputs[i]);
    }
    assert forall|i: int| 0 <= i < rule.extra_outputs.len() implies u.select(
        dir,
        #[trigger] rule.extra_outputs[i],
    ) is Some by {
        lemma_stays_found(t, u, dir, rule.extra_outputs[i]);
    }
}

proof fn lemma_links_found(t: TablesText, dir: TupId, cmd: TupId, rule: StoreText)
    requires
        unique_names(t.nodes),
    ensures
        ({
            let (u, e) = t.link_rule(dir, cmd, rule);
            &&& extends(t, u)
            &&& e is None ==> outputs_found(u, dir, rule)
        }),
{
    let a = t.link_inputs(dir, cmd, rule.inputs);
    let b = a.link_order_only(dir, cmd, rule.order_only_inputs);
    lemma_link_inputs_keep(t, dir, cmd, rule.inputs);
    lemma_link_order_only_keep(a, dir, cmd, rule.order_only_inputs);
    assert(extends(t, b));
    lemma_outputs_found(b, dir, cmd, rule.outputs, true);
    lemma_link_outputs_keep(b, dir, cmd, rule.outputs, true);
    let (c, e) = b.link_outputs(dir, cmd, rule.outputs, true);
    lemma_extends_trans(t, b, c);
    if e is None {
        lemma_outputs_found(c, dir, cmd, rule.extra_outputs, false);
        let u = c.link_outputs(dir, cmd, rule.extra_outputs, false).0;
        lemma_extends_trans(t, c, u);
        assert forall|i: int| 0 <= i < rule.outputs.len() implies u.select(
            dir,
            #[trigger] rule.outputs[i],
        ) is Some by {
            lemma_stays_found(c, u, dir, rule.outputs[i]);
        }
    }
}

proof fn lemma_choice_extends(w: World, dir: TupId, rule: StoreText)
    requires
        unique_names(w.tables.nodes),
    ensures
        extends(w.tables, w.choose_command(dir, rule).0.tables),
{
    let t = w.tables;
    let u = w.choose_command(dir, rule).0.tables;
    lemma_found(t.nodes, dir, rule.command);
    match t.select(dir, rule.command) {
        None => {
            let r = t.new_row(
                dir,
                rule.command,
                NodeType::Cmd,
                -1i64,
                0,
                -1i64,
                rule.display,
                rule.flags,
            );
            if r is Ok {
                lemma_put_extends(t, r->Ok_0);
                assert(u.nodes == t.put(r->Ok_0).nodes);
            }
        },
        Some(x) => {
            assert(t.nodes.dom().contains(x) && t.nodes[x].id == x);
            assert(u.nodes.dom() =~= t.nodes.dom());
        },
    }
}

/// After rules were stored, their outputs are all found.
proof fn lemma_all_found(w: World, dir: TupId, rules: Seq<StoreText>)
    requires
        unique_names(w.tables.nodes),
    ensures
        ({
            let (u, done, e) = w.store_all(dir, rules);
            &&& extends(w.tables, u.tables)
            &&& done.len() <= rules.len()
            &&& done.len() == rules.len() ==> forall|i: int|
                0 <= i < rules.len() ==> outputs_found(u.tables, dir, #[trigger] rules[i])
        }),
    decreases rules.len(),
{
    if rules.len() > 0 {
        let before = rules.drop_last();
        lemma_all_found(w, dir, before);
        lemma_unique_after_all(w, dir, before);
        let (v, done, e) = w.store_all(dir, before);
        if e is None {
            let last = rules.last();
            lemma_choice_extends(v, dir, last);
            lemma_choose(v, dir, last);
            let (c, chosen) = v.choose_command(dir, last);
            let (u, s, f) = v.store_rule(dir, last);
            if let Chosen::Node(cmd, existed) = chosen {
                let t = if existed {
                    c.tables.without_rule_links(cmd)
                } else {
                    c.tables
                };
                lemma_links_found(t, dir, cmd, last);
                assert(extends(c.tables, t));
                lemma_extends_trans(c.tables, t, u.tables);
                lemma_extends_trans(v.tables, c.tables, u.tables);
            }
            assert(extends(v.tables, u.tables));
            lemma_extends_trans(w.tables, v.tables, u.tables);
            if s is Some && done.len() == before.len() {
                assert forall|i: int| 0 <= i < rules.len() implies outputs_found(
                    u.tables,
                    dir,
                    #[trigger] rules[i],
                ) by {
                    if i < before.len() {
                        assert(before[i] == rules[i]);
                        lemma_outputs_stay(v.tables, u.tables, dir, rules[i]);
                    }
                }
            }
        }
    }
}

/// Identifiers stay above 0, and names unique, when rules are stored.
pub proof fn storing_keeps_nodes_numbered(w: World, dir: TupId, rules: Seq<StoreText>)
    requires
        unique_names(w.tables.nodes),
        are_numbered(w.tables.nodes),
    ensures
        unique_names(w.store_rules(dir, rules).0.tables.nodes),
        are_numbered(w.store_rules(dir, rules).0.tables.nodes),
{
    lemma_all_found(w, dir, rules);
    lemma_unique_after_all(w, dir, rules);
    let (v, done, e) = w.store_all(dir, rules);
    if e is None {
        let gone = v.tables.leftovers(dir, command_ids(done), rules);
        lemma_drop_rows(v.tables, gone);
        let u = v.tables.drop_rows(gone);
        assert forall|x: TupId| #[trigger] u.nodes.dom().contains(x) implies x.0 >= 1 by {
            assert(v.tables.nodes.dom().contains(x));
        }
    }
}

/// Whether all outputs that rules declare are found.
spec fn declared_found(t: TablesText, dir: TupId, rules: Seq<StoreText>) -> bool {
    forall|name: Seq<char>| #[trigger] is_declared(rules, name) ==> t.select(dir, name) is Some
}

proof fn lemma_declared_found(t: TablesText, dir: TupId, rules: Seq<StoreText>)
    requires
        forall|i: int| 0 <= i < rules.len() ==> outputs_found(t, dir, #[trigger] rules[i]),
    ensures
        declared_found(t, dir, rules),
{
    assert forall|name: Seq<char>| #[trigger] is_declared(rules, name) implies t.select(
        dir,
        name,
    ) is Some by {
        let i = choose|i: int|
            0 <= i < rules.len() && ((#[trigger] rules[i]).outputs.contains(name)
                || rules[i].extra_outputs.contains(name));
        assert(outputs_found(t, dir, rules[i]));
        if rules[i].outputs.contains(name) {
            let k = choose|k: int| 0 <= k < rules[i].outputs.len() && rules[i].outputs[k] == name;
            assert(t.select(dir, rules[i].outputs[k]) is Some);
        } else {
            let k = choose|k: int|
                0 <= k < rules[i].extra_outputs.len() && rules[i].extra_outputs[k] == name;
            assert(t.select(dir, rules[i].extra_outputs[k]) is Some);
        }
    }
}

/// The nodes that declared outputs had and that are found under them no more.
spec fn lost_ids(
    had: TablesText,
    t: TablesText,
    dir: TupId,
    rules: Seq<StoreText>,
) -> Set<TupId> {
    Set::new(
        |x: TupId|
            {
                &&& had.nodes.dom().contains(x)
                &&& had.nodes[x].dir == dir
                &&& is_declared(rules, had.nodes[x].name)
                &&& t.select(dir, had.nodes[x].name) is None
            },
    )
}

/// Whether there is a free identifier for each output that was lost.
spec fn has_spare(had: TablesText, t: TablesText, dir: TupId, rules: Seq<StoreText>) -> bool {
    lost_ids(had, t, dir, rules).len() <= free_ids(t.nodes).len()
}

/// What goes leaves its identifier.
proof fn lemma_spare(had: TablesText, t: TablesText, dir: TupId, rules: Seq<StoreText>)
    requires
        are_numbered(had.nodes),
        forall|x: TupId| #[trigger] t.nodes.dom().contains(x) && had.nodes.dom().contains(x)
            ==> t.nodes[x] == had.nodes[x],
    ensures
        has_spare(had, t, dir, rules),
{
    let lost = lost_ids(had, t, dir, rules);
    let free = free_ids(t.nodes);
    ids_are_finite(lost);
    ids_are_finite(free);
    assert forall|x: TupId| lost.contains(x) implies free.contains(x) by {
        assert(had.nodes.dom().contains(x));
        if t.nodes.dom().contains(x) {
            assert(is_named(t.nodes, dir, had.nodes[x].name, x));
        }
    }
    vstd::set_lib::lemma_len_subset(lost, free);
}

/// Fewer outputs are lost where more is found.
proof fn lemma_fewer_lost(
    had: TablesText,
    t: TablesText,
    u: TablesText,
    dir: TupId,
    rules: Seq<StoreText>,
)
    requires
        extends(t, u),
    ensures
        lost_ids(had, u, dir, rules).subset_of(lost_ids(had, t, dir, rules)),
{
    assert forall|x: TupId| lost_ids(had, u, dir, rules).contains(x) implies lost_ids(
        had,
        t,
        dir,
        rules,
    ).contains(x) by {
        if t.select(dir, had.nodes[x].name) is Some {
            lemma_stays_found(t, u, dir, had.nodes[x].name);
        }
    }
}

/// A declared output is linked, and the directory stays clean.
proof fn lemma_output_again(
    had: TablesText,
    t: TablesText,
    dir: TupId,
    cmd: TupId,
    name: Seq<char>,
    adopt: bool,
    active: Set<TupId>,
    rules: Seq<StoreText>,
)
    requires
        unique_names(t.nodes),
        is_clean(t, dir, active, rules),
        is_declared(rules, name),
        declared_found(had, dir, rules),
        has_spare(had, t, dir, rules),
    ensures
        ({
            let r = t.link_output(dir, cmd, name, adopt);
            &&& r is Ok
            &&& is_clean(r->Ok_0, dir, active, rules)
            &&& has_spare(had, r->Ok_0, dir, rules)
        }),
{
    lemma_found(t.nodes, dir, name);
    let u = t.link_output(dir, cmd, name, adopt)->Ok_0;
    let lost = lost_ids(had, t, dir, rules);
    let free = free_ids(t.nodes);
    ids_are_finite(lost);
    ids_are_finite(free);
    match t.select(dir, name) {
        Some(id) => {
            assert(t.nodes.dom().contains(id) && t.nodes[id].id == id);
            assert(u.nodes.dom() =~= t.nodes.dom());
            assert(free_ids(u.nodes) =~= free);
            lemma_output_found(t, dir, cmd, name, adopt);
            lemma_fewer_lost(had, t, u, dir, rules);
            vstd::set_lib::lemma_len_subset(lost_ids(had, u, dir, rules), lost);
            assert forall|x: TupId| #[trigger]
                u.nodes.dom().contains(x) && u.nodes[x].dir == dir implies !is_stale(
                u.nodes[x],
                active,
            ) && !is_orphan(u.nodes[x], active, rules) by {
                assert(t.nodes.dom().contains(x));
                if x == id {
                    assert(u.nodes[x].name == name);
                    assert(u.nodes[x].node_type == NodeType::Generated || u.nodes[x]
                        == t.nodes[x]);
                } else {
                    assert(u.nodes[x] == t.nodes[x]);
                }
            }
        },
        None => {
            let x0 = had.select(dir, name)->0;
            assert(is_named(had.nodes, dir, name, x0));
            assert(lost.contains(x0));
            lemma_nonempty(lost, x0);
            let spare = free.choose();
            assert(free.contains(spare));
            a_free_identifier_is_given(t.nodes, spare);
            let row = t.new_row(
                dir,
                name,
                NodeType::Generated,
                -1i64,
                0,
                cmd.0,
                None,
                None,
            )->Ok_0;
            assert(u.nodes == t.put(row).nodes);
            lemma_output_found(t, dir, cmd, name, adopt);
            lemma_fewer_lost(had, t, u, dir, rules);
            assert(lost_ids(had, u, dir, rules).subset_of(lost.remove(x0)));
            vstd::set_lib::lemma_len_subset(lost_ids(had, u, dir, rules), lost.remove(x0));
            assert(free_ids(u.nodes) =~= free.remove(row.id));
            assert forall|x: TupId| #[trigger]
                u.nodes.dom().contains(x) && u.nodes[x].dir == dir implies !is_stale(
                u.nodes[x],
                active,
            ) && !is_orphan(u.nodes[x], active, rules) by {
                if x != row.id {
                    assert(t.nodes.dom().contains(x));
                }
            }
        },
    }
}

proof fn lemma_nonempty(s: Set<TupId>, x: TupId)
    requires
        s.finite(),
        s.contains(x),
    ensures
        s.len() > 0,
{
    assert(s.remove(x).len() == s.len() - 1);
}

proof fn lemma_outputs_again(
    had: TablesText,
    t: TablesText,
    dir: TupId,
    cmd: TupId,
    names: Seq<Seq<char>>,
    adopt: bool,
    active: Set<TupId>,
    rules: Seq<StoreText>,
)
    requires
        unique_names(t.nodes),
        is_clean(t, dir, active, rules),
        forall|i: int| 0 <= i < names.len() ==> is_declared(rules, #[trigger] names[i]),
        declared_found(had, dir, rules),
        has_spare(had, t, dir, rules),
    ensures
        ({
            let (u, e) = t.link_outputs(dir, cmd, names, adopt);
            &&& e is None
            &&& unique_names(u.nodes)
            &&& is_clean(u, dir, active, rules)
            &&& has_spare(had, u, dir, rules)
        }),
    decreases names.len(),
{
    if names.len() > 0 {
        let before = names.drop_last();
        assert forall|i: int| 0 <= i < before.len() implies is_declared(
            rules,
            #[trigger] before[i],
        ) by {
            assert(before[i] == names[i]);
        }
        lemma_outputs_again(had, t, dir, cmd, before, adopt, active, rules);
        let (u, e) = t.link_outputs(dir, cmd, before, adopt);
        assert(names.last() == names[names.len() - 1]);
        lemma_output_again(had, u, dir, cmd, names.last(), adopt, active, rules);
        lemma_link_output_keeps(u, dir, cmd, names.last(), adopt);
    }
}

proof fn lemma_links_again(
    had: TablesText,
    t: TablesText,
    dir: TupId,
    cmd: TupId,
    k: int,
    active: Set<TupId>,
    rules: Seq<StoreText>,
)
    requires
        0 <= k < rules.len(),
        unique_names(t.nodes),
        is_clean(t, dir, active, rules),
        declared_found(had, dir, rules),
        has_spare(had, t, dir, rules),
    ensures
        ({
            let (u, e) = t.link_rule(dir, cmd, rules[k]);
            &&& e is None
            &&& is_clean(u, dir, active, rules)
            &&& has_spare(had, u, dir, rules)
        }),
{
    let rule = rules[k];
    let a = t.link_inputs(dir, cmd, rule.inputs);
    let b = a.link_order_only(dir, cmd, rule.order_only_inputs);
    lemma_link_inputs_keep(t, dir, cmd, rule.inputs);
    lemma_link_order_only_keep(a, dir, cmd, rule.order_only_inputs);
    assert(b.nodes == t.nodes);
    assert(lost_ids(had, b, dir, rules) =~= lost_ids(had, t, dir, rules));
    assert forall|i: int| 0 <= i < rule.outputs.len() implies is_declared(
        rules,
        #[trigger] rule.outputs[i],
    ) by {
        assert(rules[k].outputs.contains(rule.outputs[i]));
    }
    assert forall|i: int| 0 <= i < rule.extra_outputs.len() implies is_declared(
        rules,
        #[trigger] rule.extra_outputs[i],
    ) by {
        assert(rules[k].extra_outputs.contains(rule.extra_outputs[i]));
    }
    lemma_outputs_again(had, b, dir, cmd, rule.outputs, true, active, rules);
    let c = b.link_outputs(dir, cmd, rule.outputs, true).0;
    lemma_outputs_again(had, c, dir, cmd, rule.extra_outputs, false, active, rules);
}

/// Rules whose commands are all there are stored without an error, and the
/// directory stays clean.
proof fn lemma_store_again(
    had: TablesText,
    w: World,
    dir: TupId,
    rules: Seq<StoreText>,
    known: Seq<StoredText>,
    n: nat,
    active: Set<TupId>,
)
    requires
        n <= rules.len(),
        unique_names(w.tables.nodes),
        rules_agree(rules),
        known.len() == rules.len(),
        forall|i: int|
            0 <= i < known.len() ==> {
                &&& #[trigger] known[i] == stored(dir, known[i].cmd_id, rules[i])
                &&& has_command(w.tables, dir, known[i].cmd_id, rules[i])
            },
        is_clean(w.tables, dir, active, rules),
        declared_found(had, dir, rules),
        has_spare(had, w.tables, dir, rules),
    ensures
        ({
            let (u, done, e) = w.store_all(dir, rules.take(n as int));
            &&& e is None
            &&& is_clean(u.tables, dir, active, rules)
            &&& has_spare(had, u.tables, dir, rules)
        }),
    decreases n,
{
    if n > 0 {
        let some = rules.take(n as int);
        let before = rules.take(n - 1);
        assert(some.drop_last() =~= before);
        assert(some.last() == rules[n - 1]);
        lemma_store_again(had, w, dir, rules, known, (n - 1) as nat, active);
        assert forall|i: int, j: int| 0 <= i < before.len() && 0 <= j < before.len() implies agree(
            #[trigger] before[i],
            #[trigger] before[j],
        ) by {
            assert(before[i] == rules[i] && before[j] == rules[j]);
        }
        lemma_store_all(w, dir, before);
        let (v, done, e) = w.store_all(dir, before);
        let last = rules[n - 1];
        let id = known[n - 1].cmd_id;
        assert forall|i: int| 0 <= i < before.len() implies agree(last, #[trigger] before[i]) by {
            assert(agree(rules[n - 1], rules[i]));
        }
        assert(known[n - 1] == stored(dir, id, rules[n - 1]));
        assert(has_command(w.tables, dir, id, last));
        assert(has_command(v.tables, dir, id, last));
        lemma_choose(v, dir, last);
        let t = v.tables.without_rule_links(id);
        assert(t.nodes == v.tables.nodes);
        assert(lost_ids(had, t, dir, rules) =~= lost_ids(had, v.tables, dir, rules));
        lemma_links_again(had, t, dir, id, n - 1, active, rules);
    } else {
        assert(rules.take(0) =~= Seq::empty());
    }
}

/// Rules that were stored, and that are stored again with whatever is pending
/// then, keep their commands. Nothing becomes pending, and no output goes.
///
/// This leaves out rules whose name belonged to something that is no command, and
/// rules that show one command in different ways.
pub proof fn storing_again_runs_nothing(
    w: World,
    dir: TupId,
    rules: Seq<StoreText>,
    pending: spec_fn(TupFlags) -> Set<TupId>,
)
    requires
        unique_names(w.tables.nodes),
        are_numbered(w.tables.nodes),
        rules_agree(rules),
        w.store_rules(dir, rules).1 is Ok,
        w.store_rules(dir, rules).1->Ok_0.0.len() == rules.len(),
    ensures
        ({
            let (v, r) = w.store_rules(dir, rules);
            let again = World { tables: TablesText { flags: pending, ..v.tables }, ..v };
            let (u, s) = again.store_rules(dir, rules);
            &&& u.tables.flags == pending
            &&& s is Ok
            &&& s->Ok_0.0 == r->Ok_0.0
            &&& s->Ok_0.1 == Seq::<Seq<char>>::empty()
        }),
{
    every_rule_has_a_command(w, dir, rules);
    lemma_unique_after_all(w, dir, rules);
    let (v0, done, e) = w.store_all(dir, rules);
    let active = command_ids(done);
    let gone = v0.tables.leftovers(dir, active, rules);
    lemma_drop_rows(v0.tables, gone);
    lemma_rows_in(v0.tables, dir);
    let v = w.store_rules(dir, rules).0;
    let again = World { tables: TablesText { flags: pending, ..v.tables }, ..v };
    assert(is_clean(again.tables, dir, active, rules)) by {
        assert forall|id: TupId| #[trigger]
            again.tables.nodes.dom().contains(id) && again.tables.nodes[id].dir == dir implies
            !is_stale(again.tables.nodes[id], active) && !is_orphan(
            again.tables.nodes[id],
            active,
            rules,
        ) by {
            let row = v.tables.nodes[id];
            assert(v.tables.nodes.dom().contains(id));
            if is_stale(row, active) {
                every_command_has_a_rule(w, dir, rules, id);
            }
            if is_orphan(row, active, rules) {
                let rows = v0.tables.rows_in(dir);
                assert(v0.tables.nodes[id] == row && row.id == id);
                assert(rows.contains(row));
                let k = choose|k: int| 0 <= k < rows.len() && rows[k] == row;
                lemma_orphans_listed(rows, active, rules, k);
                let b = orphans(rows, active, rules);
                let m = choose|m: int| 0 <= m < b.len() && b[m] == row;
                let a = stale_rows(rows, rows, active);
                assert(gone[a.len() + m] == row);
            }
        }
    }
    assert(rules.take(rules.len() as int) =~= rules);
    lemma_store_known(again, dir, rules, done);
    lemma_all_found(w, dir, rules);
    lemma_declared_found(v0.tables, dir, rules);
    lemma_spare(v0.tables, again.tables, dir, rules);
    lemma_store_again(v0.tables, again, dir, rules, done, rules.len(), active);
    let (u0, d2, e2) = again.store_all(dir, rules);
    lemma_clean_drops_nothing(u0.tables, dir, active, rules);
    assert(u0.tables.drop_rows(Seq::empty()) == u0.tables);
    assert(generated_names(Seq::empty()) =~= Seq::<Seq<char>>::empty());
}

impl TablesText {
    /// Commands that were stored have run.
    pub open spec fn all_done(self, cmds: Seq<StoredText>) -> TablesText
        decreases cmds.len(),
    {
        if cmds.len() == 0 {
            self
        } else {
            self.all_done(cmds.drop_last()).unflag(cmds.last().cmd_id, TupFlags::Modify)
        }
    }
}

proof fn lemma_all_done(t: TablesText, cmds: Seq<StoredText>)
    ensures
        t.all_done(cmds) == (TablesText { flags: t.all_done(cmds).flags, ..t }),
        forall|i: int|
            0 <= i < cmds.len() ==> !(t.all_done(cmds).flags)(TupFlags::Modify).contains(
                (#[trigger] cmds[i]).cmd_id,
            ),
    decreases cmds.len(),
{
    if cmds.len() > 0 {
        let before = cmds.drop_last();
        lemma_all_done(t, before);
        assert forall|i: int| 0 <= i < cmds.len() implies !(t.all_done(cmds).flags)(
            TupFlags::Modify,
        ).contains((#[trigger] cmds[i]).cmd_id) by {
            if i < before.len() {
                assert(before[i] == cmds[i]);
            }
        }
    }
}

/// Rules that were stored, whose commands have run, and that are stored again
/// have the same commands in the same order. None of them is to run, and no output
/// goes.
///
/// This leaves out what [`storing_again_runs_nothing`] leaves out.
pub proof fn what_ran_does_not_run_again(w: World, dir: TupId, rules: Seq<StoreText>)
    requires
        unique_names(w.tables.nodes),
        are_numbered(w.tables.nodes),
        rules_agree(rules),
        w.store_rules(dir, rules).1 is Ok,
        w.store_rules(dir, rules).1->Ok_0.0.len() == rules.len(),
    ensures
        ({
            let (v, r) = w.store_rules(dir, rules);
            let done = r->Ok_0.0;
            let (u, s) = World { tables: v.tables.all_done(done), ..v }.store_rules(dir, rules);
            &&& s is Ok
            &&& s->Ok_0.0 == done
            &&& s->Ok_0.1 == Seq::<Seq<char>>::empty()
            &&& forall|i: int|
                0 <= i < done.len() ==> !(u.tables.flags)(TupFlags::Modify).contains(
                    (#[trigger] done[i]).cmd_id,
                )
        }),
{
    let (v, r) = w.store_rules(dir, rules);
    let done = r->Ok_0.0;
    lemma_all_done(v.tables, done);
    storing_again_runs_nothing(w, dir, rules, v.tables.all_done(done).flags);
}

} // verus!
